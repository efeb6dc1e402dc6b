//! The polling variant: every dequeue request is answered at once,
//! with the absence marker when the list has nothing to give.

use vstd::prelude::*;
use vstd::multiset::Multiset;

use crate::Msg;
use crate::Reply;
use crate::ReplyToken;
use crate::next_list;

verus! {

/// True of the two enqueue requests.
pub open spec fn is_put<T>(m: Msg<T>) -> bool {
    m is PutLeft || m is PutRight
}

/// True of the two dequeue requests.
pub open spec fn is_get<T>(m: Msg<T>) -> bool {
    m is GetLeft || m is GetRight
}

/// The reply token a dequeue request carries.
pub open spec fn token_of<T>(m: Msg<T>) -> ReplyToken
    recommends
        is_get(m),
{
    match m {
        Msg::GetLeft(t) => t,
        Msg::GetRight(t) => t,
        _ => arbitrary(),
    }
}

/// The answer the polling worker owes for one request: a reply for every
/// dequeue (absent when the list is empty), none for enqueues and
/// termination.
pub open spec fn reply_to<T>(s: Seq<T>, m: Msg<T>) -> Option<Reply<T>> {
    match m {
        Msg::GetLeft(t) => Some(
            Reply { token: t, value: if s.len() > 0 { Some(s[0]) } else { None } },
        ),
        Msg::GetRight(t) => Some(
            Reply { token: t, value: if s.len() > 0 { Some(s.last()) } else { None } },
        ),
        _ => None,
    }
}

/// The state owned by the polling worker: the list, and whether the
/// worker is still willing to process requests.
pub struct PollingActor<T> {
    list: Vec<T>,
    live: bool,
}

impl<T> View for PollingActor<T> {
    type V = Seq<T>;

    closed spec fn view(&self) -> Seq<T> {
        self.list@
    }
}

impl<T> PollingActor<T> {
    /// True until the worker has processed `Terminate`; callers must not
    /// hand requests to a worker that has stopped.
    pub closed spec fn running(self) -> bool {
        self.live
    }

    /// A fresh worker: empty list, ready for requests.
    pub fn new() -> (a: Self)
        ensures
            a@ == Seq::<T>::empty(),
            a.running(),
    {
        PollingActor { list: Vec::new(), live: true }
    }

    /// Whether the worker still processes requests; the loop that feeds
    /// it must stop once this is false.
    pub fn is_running(&self) -> (b: bool)
        ensures
            b == self.running(),
    {
        self.live
    }

    /// Process one request: mutate the list as `next_list` says and
    /// return exactly the reply `reply_to` says, never blocking.
    pub fn step(&mut self, m: Msg<T>) -> (r: Option<Reply<T>>)
        requires
            old(self).running(),
        ensures
            final(self)@ == next_list(old(self)@, m),
            r == reply_to(old(self)@, m),
            final(self).running() == !(m is Terminate),
    {
        match m {
            Msg::GetLeft(t) => {
                if self.list.len() > 0 {
                    let v = self.list.remove(0);
                    proof {
                        assert(self.list@ =~= old(self)@.drop_first());
                    }
                    Some(Reply { token: t, value: Some(v) })
                } else {
                    Some(Reply { token: t, value: None })
                }
            },
            Msg::GetRight(t) => {
                if self.list.len() > 0 {
                    let v = self.list.pop().unwrap();
                    proof {
                        assert(self.list@ =~= old(self)@.drop_last());
                    }
                    Some(Reply { token: t, value: Some(v) })
                } else {
                    Some(Reply { token: t, value: None })
                }
            },
            Msg::PutLeft(v) => {
                self.list.insert(0, v);
                None
            },
            Msg::PutRight(v) => {
                self.list.push(v);
                None
            },
            Msg::Terminate => {
                self.live = false;
                None
            },
        }
    }

    /// Process a whole batch of requests in order, stopping at the first
    /// `Terminate`, and return every reply produced, in order.
    pub fn step_all(&mut self, ms: Vec<Msg<T>>) -> (rs: Vec<Reply<T>>)
        requires
            old(self).running(),
        ensures
            rs@ == run(old(self)@, ms@).0,
            final(self)@ == run(old(self)@, ms@).1,
            final(self).running() == run(old(self)@, ms@).2,
    {
        let ghost s0 = self@;
        let ghost ms0 = ms@;
        let mut ms = ms;
        let mut rs: Vec<Reply<T>> = Vec::new();
        while ms.len() > 0 && self.live
            invariant
                self.live ==> run(s0, ms0).0 == rs@ + run(self@, ms@).0,
                self.live ==> run(s0, ms0).1 == run(self@, ms@).1,
                self.live ==> run(s0, ms0).2 == run(self@, ms@).2,
                !self.live ==> run(s0, ms0).0 == rs@,
                !self.live ==> run(s0, ms0).1 == self@,
                !self.live ==> !run(s0, ms0).2,
            decreases ms.len(),
        {
            let ghost s_here = self@;
            let ghost ms_here = ms@;
            let m = ms.remove(0);
            let r = self.step(m);
            proof {
                assert(ms@ =~= ms_here.drop_first());
            }
            match r {
                Some(reply) => {
                    rs.push(reply);
                    proof {
                        assert(reply_seq(s_here, ms_here[0]) =~= seq![reply]);
                        assert(rs@ + run(self@, ms@).0 =~= run(s0, ms0).0);
                    }
                },
                None => {
                    proof {
                        if !(ms_here[0] is Terminate) {
                            assert(reply_seq(s_here, ms_here[0]) =~= Seq::<Reply<T>>::empty());
                            assert(rs@ + run(self@, ms@).0 =~= run(s0, ms0).0);
                        }
                    }
                },
            }
        }
        proof {
            if self.live {
                assert(rs@ + run(self@, ms@).0 =~= rs@);
            }
        }
        rs
    }
}

/// The reply a single request produces, as a sequence of zero or one
/// answers.
pub open spec fn reply_seq<T>(s: Seq<T>, m: Msg<T>) -> Seq<Reply<T>> {
    match reply_to(s, m) {
        Some(r) => seq![r],
        None => Seq::<Reply<T>>::empty(),
    }
}

/// One whole session of the polling worker on list `s` and request
/// sequence `ms`: the replies produced, the final list, and whether the
/// worker is still running.  The session stops at the first `Terminate`;
/// requests after it are never processed.
pub open spec fn run<T>(s: Seq<T>, ms: Seq<Msg<T>>) -> (Seq<Reply<T>>, Seq<T>, bool)
    decreases ms.len(),
{
    if ms.len() == 0 {
        (Seq::<Reply<T>>::empty(), s, true)
    } else if ms[0] is Terminate {
        (Seq::<Reply<T>>::empty(), s, false)
    } else {
        let rest = run(next_list(s, ms[0]), ms.drop_first());
        (reply_seq(s, ms[0]) + rest.0, rest.1, rest.2)
    }
}

/// A session over `a + b` is the session over `a` followed by the
/// session over `b` from where `a` left off, as long as `a` does not
/// terminate the worker.
pub proof fn lemma_run_append<T>(s: Seq<T>, a: Seq<Msg<T>>, b: Seq<Msg<T>>)
    requires
        forall|i: int| 0 <= i < a.len() ==> !((#[trigger] a[i]) is Terminate),
    ensures
        run(s, a + b).0 == run(s, a).0 + run(run(s, a).1, b).0,
        run(s, a + b).1 == run(run(s, a).1, b).1,
        run(s, a + b).2 == run(run(s, a).1, b).2,
        run(s, a).2,
    decreases a.len(),
{
    if a.len() == 0 {
        assert(a + b =~= b);
        assert(run(s, a).0 + run(run(s, a).1, b).0 =~= run(s, b).0);
    } else {
        let m = a[0];
        assert((a + b)[0] == m);
        assert((a + b).drop_first() =~= a.drop_first() + b);
        lemma_run_append(next_list(s, m), a.drop_first(), b);
        assert(run(s, a + b).0 =~= run(s, a).0 + run(run(s, a).1, b).0);
    }
}

/// Law of termination: every request placed after a `Terminate` is dead —
/// it produces no reply and no change of the list, and the worker is no
/// longer running.
pub proof fn lemma_run_stops_at_terminate<T>(s: Seq<T>, a: Seq<Msg<T>>, b: Seq<Msg<T>>)
    requires
        forall|i: int| 0 <= i < a.len() ==> !((#[trigger] a[i]) is Terminate),
    ensures
        run(s, a.push(Msg::Terminate) + b).0 == run(s, a).0,
        run(s, a.push(Msg::Terminate) + b).1 == run(s, a).1,
        !run(s, a.push(Msg::Terminate) + b).2,
    decreases a.len(),
{
    if a.len() == 0 {
        assert((a.push(Msg::Terminate) + b)[0] is Terminate);
        assert(run(s, a.push(Msg::Terminate) + b).0 =~= run(s, a).0);
    } else {
        let m = a[0];
        assert((a.push(Msg::Terminate) + b)[0] == m);
        assert((a.push(Msg::Terminate) + b).drop_first() =~= a.drop_first().push(
            Msg::Terminate,
        ) + b);
        lemma_run_stops_at_terminate(next_list(s, m), a.drop_first(), b);
        assert(run(s, a.push(Msg::Terminate) + b).0 =~= run(s, a).0);
    }
}

/// A session of enqueues alone answers nothing and grows the list by one
/// element per request.
pub proof fn lemma_run_puts<T>(s: Seq<T>, ms: Seq<Msg<T>>)
    requires
        forall|i: int| 0 <= i < ms.len() ==> is_put(#[trigger] ms[i]),
    ensures
        run(s, ms).0 == Seq::<Reply<T>>::empty(),
        run(s, ms).1.len() == s.len() + ms.len(),
        run(s, ms).2,
    decreases ms.len(),
{
    if ms.len() > 0 {
        lemma_run_puts(next_list(s, ms[0]), ms.drop_first());
        assert(run(s, ms).0 =~= Seq::<Reply<T>>::empty());
    }
}

/// A session of dequeues alone answers every request, each with the
/// token it carried; the first answers — one per element available —
/// hold a present element, the rest hold the absence marker.
pub proof fn lemma_run_gets<T>(s: Seq<T>, ms: Seq<Msg<T>>)
    requires
        forall|i: int| 0 <= i < ms.len() ==> is_get(#[trigger] ms[i]),
    ensures
        run(s, ms).0.len() == ms.len(),
        forall|i: int|
            0 <= i < ms.len() ==> (((#[trigger] run(s, ms).0[i]).value is Some) <==> i
                < s.len()),
        forall|i: int| 0 <= i < ms.len() ==> (#[trigger] run(s, ms).0[i]).token == token_of(
            ms[i],
        ),
        run(s, ms).1.len() == if s.len() >= ms.len() {
            s.len() - ms.len()
        } else {
            0
        },
        run(s, ms).2,
    decreases ms.len(),
{
    if ms.len() > 0 {
        let m = ms[0];
        let s1 = next_list(s, m);
        lemma_run_gets(s1, ms.drop_first());
        let head = reply_seq(s, m);
        let rest = run(s1, ms.drop_first()).0;
        assert(head.len() == 1);
        assert(run(s, ms).0 == head + rest);
        assert forall|i: int| 0 <= i < ms.len() implies (((#[trigger] run(s, ms).0[i]).value
            is Some) <==> i < s.len()) && run(s, ms).0[i].token == token_of(ms[i]) by {
            if i == 0 {
                assert(run(s, ms).0[0] == head[0]);
            } else {
                assert(run(s, ms).0[i] == rest[i - 1]);
                assert(ms.drop_first()[i - 1] == ms[i]);
            }
        }
    }
}

/// Law of polling: starting from an empty list, any enqueues followed by
/// any dequeues answer every dequeue, and exactly the first dequeues —
/// one per element enqueued — receive a present element; all later ones
/// receive the absence marker.
pub proof fn lemma_polling_puts_then_gets<T>(puts: Seq<Msg<T>>, gets: Seq<Msg<T>>)
    requires
        forall|i: int| 0 <= i < puts.len() ==> is_put(#[trigger] puts[i]),
        forall|i: int| 0 <= i < gets.len() ==> is_get(#[trigger] gets[i]),
    ensures
        run(Seq::<T>::empty(), puts + gets).0.len() == gets.len(),
        forall|i: int|
            0 <= i < gets.len() ==> (((#[trigger] run(Seq::<T>::empty(), puts + gets).0[i]).value
                is Some) <==> i < puts.len()),
        forall|i: int|
            0 <= i < gets.len() ==> (#[trigger] run(Seq::<T>::empty(), puts + gets).0[i]).token
                == token_of(gets[i]),
{
    let s0 = Seq::<T>::empty();
    lemma_run_append(s0, puts, gets);
    lemma_run_puts(s0, puts);
    let mid = run(s0, puts).1;
    lemma_run_gets(mid, gets);
    assert(run(s0, puts + gets).0 =~= run(mid, gets).0);
}

/// The request sequence that enqueues the elements of `vs` at the right,
/// in order.
pub open spec fn puts_right<T>(vs: Seq<T>) -> Seq<Msg<T>> {
    Seq::new(vs.len(), |i: int| Msg::PutRight(vs[i]))
}

/// The request sequence that dequeues from the left once per token in
/// `toks`, in order.
pub open spec fn gets_left<T>(toks: Seq<ReplyToken>) -> Seq<Msg<T>> {
    Seq::new(toks.len(), |i: int| Msg::GetLeft(toks[i]))
}

/// Enqueueing `vs` at the right appends `vs` to the list in order.
pub proof fn lemma_run_puts_right<T>(s: Seq<T>, vs: Seq<T>)
    ensures
        run(s, puts_right(vs)).0 == Seq::<Reply<T>>::empty(),
        run(s, puts_right(vs)).1 == s + vs,
        run(s, puts_right(vs)).2,
    decreases vs.len(),
{
    if vs.len() == 0 {
        assert(s + vs =~= s);
    } else {
        assert(puts_right(vs).drop_first() =~= puts_right::<T>(vs.drop_first()));
        lemma_run_puts_right(s.push(vs[0]), vs.drop_first());
        assert(s.push(vs[0]) + vs.drop_first() =~= s + vs);
        assert(run(s, puts_right(vs)).0 =~= Seq::<Reply<T>>::empty());
    }
}

/// Dequeueing from the left returns the elements of the list in their
/// left-to-right order, one per request, each answer carrying the token
/// of its own request; requests beyond the elements available receive
/// the absence marker.
pub proof fn lemma_run_gets_left<T>(s: Seq<T>, toks: Seq<ReplyToken>)
    ensures
        run(s, gets_left::<T>(toks)).0.len() == toks.len(),
        forall|i: int|
            0 <= i < toks.len() && i < s.len() ==> (#[trigger] run(s, gets_left::<T>(toks)).0[i])
                == (Reply { token: toks[i], value: Some(s[i]) }),
        forall|i: int|
            s.len() <= i < toks.len() ==> (#[trigger] run(s, gets_left::<T>(toks)).0[i]) == (Reply {
                token: toks[i],
                value: None::<T>,
            }),
    decreases toks.len(),
{
    if toks.len() > 0 {
        let ms = gets_left::<T>(toks);
        assert(ms[0] == Msg::GetLeft::<T>(toks[0]));
        assert(ms.drop_first() =~= gets_left::<T>(toks.drop_first()));
        let s1 = next_list(s, ms[0]);
        lemma_run_gets_left(s1, toks.drop_first());
        let head = reply_seq(s, ms[0]);
        let rest = run(s1, ms.drop_first()).0;
        assert(run(s, ms).0 == head + rest);
        assert forall|i: int| 0 <= i < toks.len() && i < s.len() implies (
        #[trigger] run(s, ms).0[i]) == (Reply { token: toks[i], value: Some(s[i]) }) by {
            if i == 0 {
                assert(run(s, ms).0[0] == head[0]);
            } else {
                assert(run(s, ms).0[i] == rest[i - 1]);
                assert(s1 == s.drop_first());
                assert(s.drop_first()[i - 1] == s[i]);
            }
        }
        assert forall|i: int| s.len() <= i < toks.len() implies (#[trigger] run(s, ms).0[i])
            == (Reply { token: toks[i], value: None::<T> }) by {
            if i == 0 {
                assert(run(s, ms).0[0] == head[0]);
            } else {
                assert(run(s, ms).0[i] == rest[i - 1]);
            }
        }
    }
}

/// Law of left-side order: enqueue `vs` at the right, then dequeue from
/// the left — the answers return the enqueued elements in exactly the
/// order they were enqueued, so no dequeue overtakes an earlier one.
pub proof fn lemma_polling_fifo_left<T>(vs: Seq<T>, toks: Seq<ReplyToken>)
    ensures
        run(Seq::<T>::empty(), puts_right(vs) + gets_left::<T>(toks)).0.len() == toks.len(),
        forall|i: int|
            0 <= i < toks.len() && i < vs.len() ==> (#[trigger] run(
                Seq::<T>::empty(),
                puts_right(vs) + gets_left::<T>(toks),
            ).0[i]) == (Reply { token: toks[i], value: Some(vs[i]) }),
        forall|i: int|
            vs.len() <= i < toks.len() ==> (#[trigger] run(
                Seq::<T>::empty(),
                puts_right(vs) + gets_left::<T>(toks),
            ).0[i]) == (Reply { token: toks[i], value: None::<T> }),
{
    let s0 = Seq::<T>::empty();
    assert forall|i: int| 0 <= i < puts_right(vs).len() implies !((#[trigger] puts_right(
        vs,
    )[i]) is Terminate) by {}
    lemma_run_append(s0, puts_right(vs), gets_left::<T>(toks));
    lemma_run_puts_right(s0, vs);
    assert(run(s0, puts_right(vs)).1 =~= vs);
    lemma_run_gets_left(vs, toks);
    assert(run(s0, puts_right(vs) + gets_left::<T>(toks)).0 =~= run(vs, gets_left::<T>(toks)).0);
}

/// The elements handed out by a sequence of replies: the present values,
/// in reply order.
pub open spec fn some_values<T>(rs: Seq<Reply<T>>) -> Seq<T>
    decreases rs.len(),
{
    if rs.len() == 0 {
        Seq::<T>::empty()
    } else {
        match rs[0].value {
            Some(v) => seq![v] + some_values(rs.drop_first()),
            None => some_values(rs.drop_first()),
        }
    }
}

/// The elements a request sequence enqueues, in request order.
pub open spec fn put_values<T>(ms: Seq<Msg<T>>) -> Seq<T>
    decreases ms.len(),
{
    if ms.len() == 0 {
        Seq::<T>::empty()
    } else {
        match ms[0] {
            Msg::PutLeft(v) => seq![v] + put_values(ms.drop_first()),
            Msg::PutRight(v) => seq![v] + put_values(ms.drop_first()),
            _ => put_values(ms.drop_first()),
        }
    }
}

/// Law of left-side order, for every interleaving: as long as elements
/// enter at the right and leave at the left — the queue discipline — the
/// elements handed out, in answer order, followed by those still held,
/// are exactly the starting elements followed by those enqueued, in
/// order.  A dequeue can never overtake an earlier one, wherever the
/// enqueues fall between them.
pub proof fn lemma_polling_queue_order<T>(s: Seq<T>, ms: Seq<Msg<T>>)
    requires
        forall|i: int|
            0 <= i < ms.len() ==> ((#[trigger] ms[i]) is PutRight || ms[i] is GetLeft),
    ensures
        some_values(run(s, ms).0) + run(s, ms).1 == s + put_values(ms),
    decreases ms.len(),
{
    if ms.len() == 0 {
        assert(some_values(run(s, ms).0) + run(s, ms).1 =~= s + put_values(ms));
    } else {
        let m = ms[0];
        let s1 = next_list(s, m);
        lemma_polling_queue_order(s1, ms.drop_first());
        let rest = run(s1, ms.drop_first()).0;
        let fin = run(s, ms).1;
        assert(fin == run(s1, ms.drop_first()).1);
        match m {
            Msg::GetLeft(t) => {
                assert(put_values(ms) == put_values(ms.drop_first()));
                if s.len() > 0 {
                    let rr = seq![Reply { token: t, value: Some(s[0]) }] + rest;
                    assert(run(s, ms).0 == rr);
                    assert(rr[0] == (Reply { token: t, value: Some(s[0]) }));
                    assert(rr.drop_first() =~= rest);
                    assert(some_values(rr) == seq![s[0]] + some_values(rest));
                    assert(seq![s[0]] + (some_values(rest) + fin) =~= some_values(rr) + fin);
                    assert(seq![s[0]] + (s.drop_first() + put_values(ms)) =~= s + put_values(ms));
                } else {
                    let rr = seq![Reply { token: t, value: None::<T> }] + rest;
                    assert(run(s, ms).0 == rr);
                    assert(rr[0] == (Reply { token: t, value: None::<T> }));
                    assert(rr.drop_first() =~= rest);
                    assert(some_values(rr) == some_values(rest));
                }
            },
            Msg::PutRight(v) => {
                assert(run(s, ms).0 == rest);
                assert(put_values(ms) == seq![v] + put_values(ms.drop_first()));
                assert(s.push(v) + put_values(ms.drop_first()) =~= s + put_values(ms));
            },
            _ => {
                assert(false);
            },
        }
    }
}

/// Prepending one element to a sequence inserts it into the multiset.
proof fn lemma_to_multiset_cons<A>(v: A, x: Seq<A>)
    ensures
        (seq![v] + x).to_multiset() == x.to_multiset().insert(v),
{
    assert(seq![v] + x =~= x.insert(0, v));
    vstd::seq_lib::to_multiset_insert(x, 0, v);
}

/// Law of conservation: over any session without `Terminate`, the
/// elements handed out as present answers, together with those still in
/// the list, are exactly — as a multiset — the elements the list started
/// with plus those enqueued.  No element is handed out twice, none is
/// fabricated, and none is lost.
pub proof fn lemma_polling_conservation<T>(s: Seq<T>, ms: Seq<Msg<T>>)
    requires
        forall|i: int| 0 <= i < ms.len() ==> !((#[trigger] ms[i]) is Terminate),
    ensures
        some_values(run(s, ms).0).to_multiset().add(run(s, ms).1.to_multiset()) == s.to_multiset()
            .add(put_values(ms).to_multiset()),
        some_values(run(s, ms).0).len() + run(s, ms).1.len() == s.len() + put_values(ms).len(),
    decreases ms.len(),
{
    broadcast use vstd::multiset::group_multiset_axioms;
    broadcast use vstd::seq_lib::group_to_multiset_ensures;

    if ms.len() == 0 {
        assert(some_values(run(s, ms).0) =~= Seq::<T>::empty());
        assert(Seq::<T>::empty().to_multiset() =~= Multiset::<T>::empty());
        assert(put_values(ms).to_multiset() =~= Multiset::<T>::empty());
        assert(some_values(run(s, ms).0).to_multiset().add(run(s, ms).1.to_multiset())
            =~= s.to_multiset().add(put_values(ms).to_multiset()));
    } else {
        let m = ms[0];
        let s1 = next_list(s, m);
        lemma_polling_conservation(s1, ms.drop_first());
        let rest = run(s1, ms.drop_first()).0;
        let fin = run(s, ms).1;
        assert(fin == run(s1, ms.drop_first()).1);
        match m {
            Msg::GetLeft(t) => {
                assert(put_values(ms) == put_values(ms.drop_first()));
                if s.len() > 0 {
                    let rr = seq![Reply { token: t, value: Some(s[0]) }] + rest;
                    assert(run(s, ms).0 == rr);
                    assert(rr[0] == (Reply { token: t, value: Some(s[0]) }));
                    assert(rr.drop_first() =~= rest);
                    assert(some_values(rr) == seq![s[0]] + some_values(rest));
                    lemma_to_multiset_cons(s[0], some_values(rest));
                    assert(s.drop_first() =~= s.remove(0));
                    vstd::seq_lib::to_multiset_remove(s, 0);
                    assert(s.to_multiset().contains(s[0]));
                    let sv_ms = some_values(rest).to_multiset();
                    let fin_ms = fin.to_multiset();
                    let pv_ms = put_values(ms.drop_first()).to_multiset();
                    assert(some_values(run(s, ms).0).to_multiset() == sv_ms.insert(s[0]));
                    assert(sv_ms.insert(s[0]).add(fin_ms) =~= sv_ms.add(fin_ms).insert(s[0]));
                    assert(sv_ms.add(fin_ms) == s.to_multiset().remove(s[0]).add(pv_ms));
                    assert(s.to_multiset().remove(s[0]).add(pv_ms).insert(s[0]) =~= s.to_multiset()
                        .add(pv_ms));
                } else {
                    let rr = seq![Reply { token: t, value: None::<T> }] + rest;
                    assert(run(s, ms).0 == rr);
                    assert(rr[0] == (Reply { token: t, value: None::<T> }));
                    assert(rr.drop_first() =~= rest);
                    assert(some_values(rr) == some_values(rest));
                }
            },
            Msg::GetRight(t) => {
                assert(put_values(ms) == put_values(ms.drop_first()));
                if s.len() > 0 {
                    let last = s.len() - 1;
                    let rr = seq![Reply { token: t, value: Some(s.last()) }] + rest;
                    assert(run(s, ms).0 == rr);
                    assert(rr[0] == (Reply { token: t, value: Some(s.last()) }));
                    assert(rr.drop_first() =~= rest);
                    assert(some_values(rr) == seq![s.last()] + some_values(rest));
                    lemma_to_multiset_cons(s.last(), some_values(rest));
                    assert(s.drop_last() =~= s.remove(last));
                    vstd::seq_lib::to_multiset_remove(s, last);
                    assert(s.to_multiset().contains(s[last]));
                    let sv_ms = some_values(rest).to_multiset();
                    let fin_ms = fin.to_multiset();
                    let pv_ms = put_values(ms.drop_first()).to_multiset();
                    assert(some_values(run(s, ms).0).to_multiset() == sv_ms.insert(s.last()));
                    assert(sv_ms.insert(s.last()).add(fin_ms) =~= sv_ms.add(fin_ms).insert(
                        s.last(),
                    ));
                    assert(sv_ms.add(fin_ms) == s.to_multiset().remove(s.last()).add(pv_ms));
                    assert(s.to_multiset().remove(s.last()).add(pv_ms).insert(s.last())
                        =~= s.to_multiset().add(pv_ms));
                } else {
                    let rr = seq![Reply { token: t, value: None::<T> }] + rest;
                    assert(run(s, ms).0 == rr);
                    assert(rr[0] == (Reply { token: t, value: None::<T> }));
                    assert(rr.drop_first() =~= rest);
                    assert(some_values(rr) == some_values(rest));
                }
            },
            Msg::PutLeft(v) => {
                assert(run(s, ms).0 == rest);
                assert(put_values(ms) == seq![v] + put_values(ms.drop_first()));
                lemma_to_multiset_cons(v, put_values(ms.drop_first()));
                vstd::seq_lib::to_multiset_insert(s, 0, v);
                assert(some_values(run(s, ms).0).to_multiset().add(fin.to_multiset())
                    =~= s.to_multiset().add(put_values(ms).to_multiset()));
            },
            Msg::PutRight(v) => {
                assert(run(s, ms).0 == rest);
                assert(put_values(ms) == seq![v] + put_values(ms.drop_first()));
                lemma_to_multiset_cons(v, put_values(ms.drop_first()));
                vstd::seq_lib::to_multiset_build(s, v);
                assert(some_values(run(s, ms).0).to_multiset().add(fin.to_multiset())
                    =~= s.to_multiset().add(put_values(ms).to_multiset()));
            },
            Msg::Terminate => {
                assert(false);
            },
        }
    }
}

} // verus!

