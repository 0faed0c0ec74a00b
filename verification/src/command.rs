//! The values that are written to the log and exchanged on the wire.

use vstd::prelude::*;

verus! {

/// One record of the log. On disk the first variant carries the tag `Set`, the second `Rm`.
#[derive(Debug, PartialEq, Eq)]
pub enum Command {
    /// The key (first) now maps to the value (second).
    Put(String, String),
    /// The key has no mapping any more.
    Rm(String),
}

/// What a `Command` says, as mathematical strings.
pub enum CommandView {
    Put(Seq<char>, Seq<char>),
    Rm(Seq<char>),
}

impl View for Command {
    type V = CommandView;

    open spec fn view(&self) -> CommandView {
        match self {
            Command::Put(k, v) => CommandView::Put(k@, v@),
            Command::Rm(k) => CommandView::Rm(k@),
        }
    }
}

impl Clone for Command {
    fn clone(&self) -> (copy: Command)
        ensures
            copy@ == self@,
    {
        match self {
            Command::Put(k, v) => Command::Put(k.clone(), v.clone()),
            Command::Rm(k) => Command::Rm(k.clone()),
        }
    }
}

impl CommandView {
    /// The key that the record is about.
    pub open spec fn key(self) -> Seq<char> {
        match self {
            CommandView::Put(k, _) => k,
            CommandView::Rm(k) => k,
        }
    }
}

/// What a client asks of the server.
#[derive(Debug, PartialEq, Eq)]
pub enum Request {
    /// Look the key up.
    Get(String),
    /// Map the key (first) to the value (second).
    Put(String, String),
    /// Retire the key.
    Rm(String),
}

/// What a `Request` says, as mathematical strings.
pub enum RequestView {
    Get(Seq<char>),
    Put(Seq<char>, Seq<char>),
    Rm(Seq<char>),
}

impl View for Request {
    type V = RequestView;

    open spec fn view(&self) -> RequestView {
        match self {
            Request::Get(k) => RequestView::Get(k@),
            Request::Put(k, v) => RequestView::Put(k@, v@),
            Request::Rm(k) => RequestView::Rm(k@),
        }
    }
}

impl Clone for Request {
    fn clone(&self) -> (copy: Request)
        ensures
            copy@ == self@,
    {
        match self {
            Request::Get(k) => Request::Get(k.clone()),
            Request::Put(k, v) => Request::Put(k.clone(), v.clone()),
            Request::Rm(k) => Request::Rm(k.clone()),
        }
    }
}

/// What the server answers.
#[derive(Debug, PartialEq, Eq)]
pub enum Response {
    /// The operation succeeded; a lookup carries the value, the others an empty text.
    OK(String),
    /// The key has no live mapping.
    NotFound,
    /// The operation failed; the text says how.
    Error(String),
}

/// What a `Response` says, as mathematical strings.
pub enum ResponseView {
    OK(Seq<char>),
    NotFound,
    Error(Seq<char>),
}

impl View for Response {
    type V = ResponseView;

    open spec fn view(&self) -> ResponseView {
        match self {
            Response::OK(v) => ResponseView::OK(v@),
            Response::NotFound => ResponseView::NotFound,
            Response::Error(m) => ResponseView::Error(m@),
        }
    }
}

impl Clone for Response {
    fn clone(&self) -> (copy: Response)
        ensures
            copy@ == self@,
    {
        match self {
            Response::OK(v) => Response::OK(v.clone()),
            Response::NotFound => Response::NotFound,
            Response::Error(t) => Response::Error(t.clone()),
        }
    }
}

} // verus!
