//! Answering messages.
use crate::cluster::protocol::message::Message;
use vstd::prelude::*;

verus! {

/// What a node does with the messages it gets. Values are the bit patterns of
/// floating-point numbers.
pub trait Handler: Send + Sync {
    /// Writes points; whether they were accepted.
    fn on_write(&self, series: u64, points: Vec<(i64, u64)>) -> bool;

    /// The points of a series in a time range.
    fn on_query(&self, series: u64, start: i64, end: i64) -> Vec<(i64, u64)>;

    /// Takes in a message of the replicated log. A node without one ignores it.
    fn on_raft(&self, _bytes: Vec<u8>) {
    }
}

/// The answer to a message: a ping is answered by a pong, a write and a query by
/// what the handler says, under the number of the request. Nothing else is answered.
pub open spec fn answered<H: Handler>(handler: &H, msg: Message, r: Option<Message>) -> bool {
    match msg {
        Message::Ping => r == Some(Message::Pong),
        Message::Write { req_id, series, points } => exists|ok: bool|
            r == Some(Message::WriteAck { req_id, ok }) && #[trigger] call_ensures(
                H::on_write,
                (handler, series, points),
                ok,
            ),
        Message::Query { req_id, series, start, end } => exists|points: Vec<(i64, u64)>|
            r == Some(Message::QueryResult { req_id, points }) && #[trigger] call_ensures(
                H::on_query,
                (handler, series, start, end),
                points,
            ),
        Message::Raft(bytes) => r is None && call_ensures(H::on_raft, (handler, bytes), ()),
        _ => r is None,
    }
}

/// Hands a message to the handler and returns the answer to it.
pub fn dispatch<H: Handler>(handler: &H, msg: Message) -> (r: Option<Message>)
    ensures
        answered(handler, msg, r),
{
    match msg {
        Message::Ping => Some(Message::Pong),
        Message::Write { req_id, series, points } => {
            let ok = handler.on_write(series, points);
            Some(Message::WriteAck { req_id, ok })
        },
        Message::Query { req_id, series, start, end } => {
            let points = handler.on_query(series, start, end);
            Some(Message::QueryResult { req_id, points })
        },
        Message::Raft(bytes) => {
            handler.on_raft(bytes);
            None
        },
        _ => None,
    }
}

/// A ping is answered by a pong. A write is acknowledged, and a query answered, under the
/// number of the request, with what the handler says to exactly the series, points and
/// range that were sent. A message of the replicated log goes to the handler with all its
/// bytes, and neither that nor an answer is answered.
pub proof fn requests_are_answered_under_their_number<H: Handler>(
    handler: &H,
    msg: Message,
    r: Option<Message>,
)
    requires
        answered(handler, msg, r),
    ensures
        match msg {
            Message::Ping => r matches Some(Message::Pong),
            Message::Write { req_id, series, points } => r matches Some(
                Message::WriteAck { req_id: n, ok },
            ) && n == req_id && call_ensures(H::on_write, (handler, series, points), ok),
            Message::Query { req_id, series, start, end } => r matches Some(
                Message::QueryResult { req_id: n, points },
            ) && n == req_id && call_ensures(H::on_query, (handler, series, start, end), points),
            Message::Raft(bytes) => r is None && call_ensures(H::on_raft, (handler, bytes), ()),
            Message::Pong | Message::WriteAck { .. } | Message::QueryResult { .. } => r is None,
        },
{
}

/// Each request gets its answer, under its number, from what the handler says to it.
pub proof fn dispatch_answers_every_request<H: Handler>(
    handler: &H,
    msg: Message,
    r: Option<Message>,
)
    requires
        call_ensures(dispatch::<H>, (handler, msg), r),
    ensures
        match msg {
            Message::Ping => r matches Some(Message::Pong),
            Message::Write { req_id, series, points } => r matches Some(
                Message::WriteAck { req_id: n, ok },
            ) && n == req_id && call_ensures(H::on_write, (handler, series, points), ok),
            Message::Query { req_id, series, start, end } => r matches Some(
                Message::QueryResult { req_id: n, points },
            ) && n == req_id && call_ensures(H::on_query, (handler, series, start, end), points),
            Message::Raft(bytes) => r is None && call_ensures(H::on_raft, (handler, bytes), ()),
            Message::Pong | Message::WriteAck { .. } | Message::QueryResult { .. } => r is None,
        },
{
    requests_are_answered_under_their_number(handler, msg, r);
}

} // verus!
