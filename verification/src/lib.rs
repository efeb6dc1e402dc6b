//! A single-actor double-ended queue service.
//!
//! One worker owns a list of elements and serves `Msg` requests arriving
//! from many callers over a channel; each `Get` request carries a one-shot
//! reply handle on which exactly one answer (an optional element) is sent.
//! The worker's decision logic is pure: each variant is a state machine
//! that maps the current list and one incoming request to the next list
//! and the replies owed.  The channel and thread plumbing that feeds the
//! machines lives outside this crate.
//!
//! Three variants are provided:
//! - [`polling::PollingActor`] answers every dequeue at once, with an
//!   absent value when the list is empty;
//! - [`blocking::BlockingActor`] parks unsatisfiable dequeues in a
//!   pending queue and serves them, oldest first, once elements arrive;
//! - [`select_actor::SelectActor`] works from two request streams and a
//!   guard that only admits dequeues while the list is non-empty.

use vstd::prelude::*;

pub mod blocking;
pub mod polling;
pub mod select_actor;

verus! {

/// Identifies the one-shot reply channel of a single `Get` request.
/// The worker hands every answer back tagged with the token of the
/// request it answers; the surrounding runtime routes it to the caller.
#[derive(Clone, Copy, PartialEq, Eq, Structural)]
pub struct ReplyToken {
    pub id: u64,
}

/// The request vocabulary of the merged-channel variants: dequeue from
/// either end (with a reply token), enqueue at either end, or stop the
/// worker.
pub enum Msg<T> {
    GetLeft(ReplyToken),
    GetRight(ReplyToken),
    PutLeft(T),
    PutRight(T),
    Terminate,
}

/// The read half of the split protocol: dequeue requests only.
pub enum GETs {
    GetLeft(ReplyToken),
    GetRight(ReplyToken),
}

/// The write half of the split protocol: enqueues and termination.
pub enum PUTs<T> {
    PutLeft(T),
    PutRight(T),
    Terminate,
}

/// One answer owed to one `Get` request: the token names the reply
/// channel, the value is the dequeued element or the absence marker.
pub struct Reply<T> {
    pub token: ReplyToken,
    pub value: Option<T>,
}

/// How one request transforms the list.  All variants agree on this:
/// a dequeue removes from the matching end when anything is there and
/// leaves an empty list alone; an enqueue inserts at the matching end;
/// termination does not touch the list.
pub open spec fn next_list<T>(s: Seq<T>, m: Msg<T>) -> Seq<T> {
    match m {
        Msg::GetLeft(_) => if s.len() > 0 { s.drop_first() } else { s },
        Msg::GetRight(_) => if s.len() > 0 { s.drop_last() } else { s },
        Msg::PutLeft(v) => s.insert(0, v),
        Msg::PutRight(v) => s.push(v),
        Msg::Terminate => s,
    }
}

} // verus!
