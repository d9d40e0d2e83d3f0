//! Messages that the server's core sends out. `V` is the type of their JSON
//! values and `E` that of their errors: both are passed on unread.
use vstd::prelude::*;

#[allow(unused_imports)]
use crate::number::signed_decimal;

verus! {

/// The identifier of a JSON-RPC request.
#[derive(Clone, Debug, PartialEq, Eq)]
pub enum RequestId {
    Number(i64),
    String(String),
}

/// The answer to a request.
#[derive(Clone, Debug, PartialEq, Eq)]
pub struct OutgoingResponse<V> {
    pub id: RequestId,
    pub result: V,
}

/// The refusal of a request.
#[derive(Clone, Debug, PartialEq, Eq)]
pub struct OutgoingError<E> {
    pub id: RequestId,
    pub error: E,
}

/// A message that expects no answer.
#[derive(Clone, Debug, PartialEq, Eq)]
pub struct OutgoingNotification<V> {
    pub method: String,
    pub params: Option<V>,
}

/// A request of the server to its client.
#[derive(Clone, Debug, PartialEq, Eq)]
pub struct OutgoingRequest<V> {
    pub id: RequestId,
    pub method: String,
    pub params: Option<V>,
}

/// A message from the server's core.
#[derive(Clone, Debug, PartialEq, Eq)]
pub enum OutgoingMessage<V, E> {
    Request(OutgoingRequest<V>),
    Notification(OutgoingNotification<V>),
    Response(OutgoingResponse<V>),
    Error(OutgoingError<E>),
}

/// A request identifier as a mathematical value.
pub enum IdModel {
    Number(i64),
    Text(Seq<char>),
}

/// A message as a mathematical value. An answer and a refusal are one thing
/// with two outcomes.
pub enum MessageModel<V, E> {
    Answer { id: IdModel, outcome: Result<V, E> },
    Notification { method: Seq<char>, params: Option<V> },
    Request { id: IdModel, method: Seq<char>, params: Option<V> },
}

impl View for RequestId {
    type V = IdModel;

    open spec fn view(&self) -> IdModel {
        match self {
            RequestId::Number(n) => IdModel::Number(*n),
            RequestId::String(s) => IdModel::Text(s@),
        }
    }
}

impl<V, E> View for OutgoingMessage<V, E> {
    type V = MessageModel<V, E>;

    open spec fn view(&self) -> MessageModel<V, E> {
        match self {
            OutgoingMessage::Response(m) => MessageModel::Answer {
                id: m.id@,
                outcome: Ok(m.result),
            },
            OutgoingMessage::Error(m) => MessageModel::Answer {
                id: m.id@,
                outcome: Err(m.error),
            },
            OutgoingMessage::Notification(m) => MessageModel::Notification {
                method: m.method@,
                params: m.params,
            },
            OutgoingMessage::Request(m) => MessageModel::Request {
                id: m.id@,
                method: m.method@,
                params: m.params,
            },
        }
    }
}

/// How an identifier is written: a number in decimal, a string as it is.
pub open spec fn id_text(id: IdModel) -> Seq<char> {
    match id {
        IdModel::Number(n) => signed_decimal(n as int),
        IdModel::Text(s) => s,
    }
}

/// Writes an identifier with the `Display` of rmcp's `RequestId`
/// (`NumberOrString`). What is claimed of it: it writes a number as the
/// shortest decimal text, a minus sign before a negative one, and a string as
/// it is.
#[verifier::external_body]
fn request_id_text(id: &RequestId) -> (text: String)
    ensures
        text@ == id_text(id@),
{
    match id {
        RequestId::Number(n) => rmcp::model::RequestId::Number(*n).to_string(),
        RequestId::String(s) => rmcp::model::RequestId::String(s.as_str().into()).to_string(),
    }
}

impl RequestId {
    /// The identifier as text.
    pub fn to_string(&self) -> (text: String)
        ensures
            text@ == id_text(self@),
    {
        request_id_text(self)
    }
}

} // verus!
