//! The client: what a response means for the request it answers.

use crate::command::{Request, RequestView, Response, ResponseView};
use crate::error::KvsError;
use crate::wire::{decode_response, encode_request, request_bytes, response_at, Decoding, Parse};
use vstd::prelude::*;

verus! {

/// A client that sends one request per connection.
pub struct KvsClient {}

/// What a response means for the request it answers.
pub enum Outcome {
    /// The operation succeeded and the response carried this text.
    Value(Seq<char>),
    /// The key that was looked up is not live.
    Absent,
    /// The key that was to be removed is not live.
    KeyNotFound,
    /// The server reported a failure with this text.
    Failed(Seq<char>),
    /// The response does not fit the request.
    Unexpected,
}

/// The meaning of `response` as the answer to `request`.
pub open spec fn outcome(request: RequestView, response: ResponseView) -> Outcome {
    match response {
        ResponseView::OK(v) => Outcome::Value(v),
        ResponseView::NotFound => match request {
            RequestView::Get(_) => Outcome::Absent,
            RequestView::Rm(_) => Outcome::KeyNotFound,
            RequestView::Put(_, _) => Outcome::Unexpected,
        },
        ResponseView::Error(t) => Outcome::Failed(t),
    }
}

/// `r` is what the client returns for the outcome.
pub open spec fn gives(r: Result<Option<String>, KvsError>, o: Outcome) -> bool {
    match o {
        Outcome::Value(v) => r matches Ok(Some(text)) && text@ == v,
        Outcome::Absent => r matches Ok(None),
        Outcome::KeyNotFound => r matches Err(e) && e is KeyNotFound,
        Outcome::Failed(t) => r matches Err(KvsError::Response(text)) && text@ == t,
        Outcome::Unexpected => r matches Err(e) && e is Unspecified,
    }
}

impl KvsClient {
    /// The bytes to send for a request.
    pub fn request(request: &Request) -> (bytes: Vec<u8>)
        ensures
            bytes@ == request_bytes(request@),
    {
        encode_request(request)
    }

    /// What the client returns for a response: the text of `OK`; for `NotFound`,
    /// `None` after a lookup and `KeyNotFound` after a removal; for `Error`, a
    /// `Response` failure with the server's text.
    pub fn interpret(request: &Request, response: Response) -> (r: Result<
        Option<String>,
        KvsError,
    >)
        ensures
            gives(r, outcome(request@, response@)),
    {
        match response {
            Response::OK(v) => Ok(Some(v)),
            Response::NotFound => match request {
                Request::Get(_) => Ok(None),
                Request::Rm(_) => Err(KvsError::KeyNotFound),
                Request::Put(_, _) => Err(KvsError::Unspecified),
            },
            Response::Error(t) => Err(KvsError::Response(t)),
        }
    }

    /// What the client returns for the bytes received in answer to a request: the
    /// meaning of the response they start with, or `Serialization` where they hold
    /// no whole response.
    pub fn receive(request: &Request, received: &[u8]) -> (r: Result<Option<String>, KvsError>)
        ensures
            match response_at(received@) {
                Parse::Done { value, end } => gives(r, outcome(request@, value)),
                _ => r matches Err(e) && e is Serialization,
            },
    {
        match decode_response(received) {
            Decoding::Done(response, _) => KvsClient::interpret(request, response),
            _ => Err(KvsError::Serialization),
        }
    }
}

} // verus!
