//! What one connection asks of the store, and the decisions of a connection's
//! request loop.

use vstd::prelude::*;
use crate::store::{
    MessageQueue, QueueView, all_messages, drained, enqueued_to, enqueued_to_all, pairs_view,
};

verus! {

/// What a request asks the store to do.
#[derive(Debug, Clone, Copy, PartialEq, Eq, Structural)]
pub enum MessageType {
    /// Append the payload to every queue that exists.
    EnqueueAny,
    /// Append the payload to one named queue, making it when absent.
    EnqueueTo,
    /// Hand back, and remove, every message of every queue.
    GetAllMessages,
}

/// A request read from one frame. `queue` is used by `EnqueueTo` alone, and
/// `msg` holds the payload as JSON text.
#[derive(Debug)]
pub struct Message {
    pub msg_type: MessageType,
    pub queue: String,
    pub msg: String,
}

/// The answer to one request.
#[derive(Debug)]
pub enum Response {
    /// An enqueue was carried out.
    Accepted,
    /// Every (queue name, payload) pair that was read.
    Messages(Vec<(String, String)>),
}

/// The store after `m` has been carried out on `v`.
pub open spec fn store_after(v: Seq<QueueView>, m: Message) -> Seq<QueueView> {
    match m.msg_type {
        MessageType::EnqueueAny => enqueued_to_all(v, m.msg@),
        MessageType::EnqueueTo => enqueued_to(v, m.queue@, m.msg@),
        MessageType::GetAllMessages => drained(v),
    }
}

/// Whether `r` is the answer to `m` on the store `v`.
pub open spec fn answers(v: Seq<QueueView>, m: Message, r: Response) -> bool {
    match m.msg_type {
        MessageType::GetAllMessages => r matches Response::Messages(p) && pairs_view(p@)
            == all_messages(v),
        _ => r is Accepted,
    }
}

impl MessageQueue {
    /// Carries out one request on the store and builds its answer.
    pub fn handle(&mut self, req: Message) -> (r: Response)
        requires
            old(self).wf(),
        ensures
            final(self).wf(),
            final(self)@ == store_after(old(self)@, req),
            answers(old(self)@, req, r),
    {
        match req.msg_type {
            MessageType::EnqueueAny => {
                self.enqueue_any(req.msg);
                Response::Accepted
            },
            MessageType::EnqueueTo => {
                self.enqueue_to(req.queue, req.msg);
                Response::Accepted
            },
            MessageType::GetAllMessages => Response::Messages(self.get_all_messages()),
        }
    }
}

/// Where a connection stands.
#[derive(Debug, Clone, Copy, PartialEq, Eq, Structural)]
pub enum SessionState {
    /// Waiting for the next complete frame.
    AwaitingFrame,
    /// Finished: nothing more is read or written.
    Closed,
}

/// What happened on a connection since the last step.
#[derive(Debug)]
pub enum SessionEvent {
    /// A frame was read and understood as a request.
    Request(Message),
    /// A frame was not UTF-8, or not a request.
    Malformed,
    /// The peer closed the stream.
    StreamEnded,
    /// Writing an answer failed.
    WriteFailed,
}

/// What the connection's loop is to do next.
#[derive(Debug)]
pub enum SessionAction {
    /// Write this answer, then wait for the next frame.
    Reply(Response),
    /// Close the connection.
    Close,
    /// Nothing: the connection is already closed.
    Nothing,
}

/// The store after a connection in `state` meets `e`: only a request on an
/// open connection changes it.
pub open spec fn store_after_event(v: Seq<QueueView>, state: SessionState, e: SessionEvent) -> Seq<
    QueueView,
> {
    match e {
        SessionEvent::Request(m) => if state == SessionState::AwaitingFrame {
            store_after(v, m)
        } else {
            v
        },
        _ => v,
    }
}

/// Takes one step of a connection: a request on an open connection is carried
/// out and answered; anything else closes it. A closed connection stays closed
/// and does nothing.
pub fn step(store: &mut MessageQueue, state: SessionState, event: SessionEvent) -> (r: (
    SessionState,
    SessionAction,
))
    requires
        old(store).wf(),
    ensures
        final(store).wf(),
        final(store)@ == store_after_event(old(store)@, state, event),
        state == SessionState::Closed ==> r.0 == SessionState::Closed && r.1 is Nothing,
        state == SessionState::AwaitingFrame ==> match event {
            SessionEvent::Request(m) => r.0 == SessionState::AwaitingFrame && (r.1 matches SessionAction::Reply(a) && answers(old(store)@, m, a)),
            _ => r.0 == SessionState::Closed && r.1 is Close,
        },
{
    match state {
        SessionState::Closed => (SessionState::Closed, SessionAction::Nothing),
        SessionState::AwaitingFrame => match event {
            SessionEvent::Request(m) => {
                let a = store.handle(m);
                (SessionState::AwaitingFrame, SessionAction::Reply(a))
            },
            _ => (SessionState::Closed, SessionAction::Close),
        },
    }
}

/// A connection whose frame is malformed, whose peer left, or whose write
/// failed, leaves the shared store as it was: what every other connection
/// can read or will be answered is unchanged.
pub proof fn proof_connection_isolation(v: Seq<QueueView>, state: SessionState, e: SessionEvent)
    requires
        !(e is Request),
    ensures
        store_after_event(v, state, e) == v,
{
}

} // verus!
