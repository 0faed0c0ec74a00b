//! The server: what it answers to a request.

use crate::command::{Request, RequestView, Response, ResponseView};
use crate::engines::KvsEngine;
use crate::error::KvsError;
use crate::thread_pool::ThreadPool;
use crate::wire::{decode_request, encode_response, request_at, response_bytes, Decoding};
use vstd::prelude::*;
use vstd::string::StringExecFns;

verus! {

/// A server: an engine, and the pool whose workers serve the connections.
pub struct KvsServer<E: KvsEngine, P: ThreadPool> {
    pub engine: E,
    pub thread_pool: P,
}

/// The text that the server sends where a lookup fails.
pub open spec fn get_failure() -> Seq<char> {
    "Error GET key"@
}

/// The text that the server sends where a `Set` fails.
pub open spec fn set_failure() -> Seq<char> {
    "Error SET key"@
}

/// The text that the server sends where a removal fails though the key is live.
pub open spec fn rm_failure() -> Seq<char> {
    "Error RM key"@
}

/// The answer to a lookup, given what the engine returned.
pub open spec fn get_reply(r: Result<Option<String>, KvsError>) -> ResponseView {
    match r {
        Ok(Some(v)) => ResponseView::OK(v@),
        Ok(None) => ResponseView::NotFound,
        Err(_) => ResponseView::Error(get_failure()),
    }
}

/// The answer to a `Set`, given what the engine returned.
pub open spec fn set_reply(r: Result<(), KvsError>) -> ResponseView {
    match r {
        Ok(_) => ResponseView::OK(Seq::empty()),
        Err(_) => ResponseView::Error(set_failure()),
    }
}

/// The answer to a removal, given what the engine returned.
pub open spec fn rm_reply(r: Result<(), KvsError>) -> ResponseView {
    match r {
        Ok(_) => ResponseView::OK(Seq::empty()),
        Err(e) => if e is KeyNotFound {
            ResponseView::NotFound
        } else {
            ResponseView::Error(rm_failure())
        },
    }
}

/// The answer to a lookup: the value, `NotFound`, or the failure text.
pub fn respond_get(r: Result<Option<String>, KvsError>) -> (response: Response)
    ensures
        response@ == get_reply(r),
{
    match r {
        Ok(Some(v)) => Response::OK(v),
        Ok(None) => Response::NotFound,
        Err(_) => Response::Error(String::from_str("Error GET key")),
    }
}

/// The answer to a `Set`: an empty text, or the failure text.
pub fn respond_set(r: Result<(), KvsError>) -> (response: Response)
    ensures
        response@ == set_reply(r),
{
    match r {
        Ok(_) => Response::OK(String::new()),
        Err(_) => Response::Error(String::from_str("Error SET key")),
    }
}

/// The answer to a removal: an empty text, `NotFound` where the key was not live,
/// or the failure text.
pub fn respond_rm(r: Result<(), KvsError>) -> (response: Response)
    ensures
        response@ == rm_reply(r),
{
    match r {
        Ok(_) => Response::OK(String::new()),
        Err(KvsError::KeyNotFound) => Response::NotFound,
        Err(_) => Response::Error(String::from_str("Error RM key")),
    }
}

/// What a request does to an engine's mapping and what is answered: `after` and
/// `response` fit `request` made of an engine that held `before`.
pub open spec fn served(
    request: RequestView,
    before: Map<Seq<char>, Seq<char>>,
    after: Map<Seq<char>, Seq<char>>,
    response: ResponseView,
) -> bool {
    match request {
        RequestView::Get(k) => after == before && match response {
            ResponseView::OK(v) => before.contains_key(k) && before[k] == v,
            ResponseView::NotFound => !before.contains_key(k),
            ResponseView::Error(t) => t == get_failure(),
        },
        RequestView::Put(k, v) => match response {
            ResponseView::OK(t) => t.len() == 0 && after == before.insert(k, v),
            ResponseView::NotFound => false,
            ResponseView::Error(t) => t == set_failure() && after == before,
        },
        RequestView::Rm(k) => match response {
            ResponseView::OK(t) => t.len() == 0 && before.contains_key(k) && after
                == before.remove(k),
            ResponseView::NotFound => !before.contains_key(k) && after == before,
            ResponseView::Error(t) => t == rm_failure() && before.contains_key(k) && after
                == before,
        },
    }
}

/// Carries out a request on the engine and gives the answer.
pub fn dispatch<E: KvsEngine>(engine: &mut E, request: Request) -> (response: Response)
    requires
        old(engine).valid(),
    ensures
        final(engine).valid(),
        served(request@, old(engine).mapping(), final(engine).mapping(), response@),
{
    match request {
        Request::Get(key) => respond_get(engine.get(key)),
        Request::Put(key, value) => respond_set(engine.set(key, value)),
        Request::Rm(key) => respond_rm(engine.remove(key)),
    }
}

/// Serves one connection: reads the request that the bytes received start with,
/// carries it out, and gives the bytes to send back. `None` where the bytes hold no
/// whole request: nothing is then done and nothing sent.
pub fn serve<E: KvsEngine>(engine: &mut E, received: &[u8]) -> (reply: Option<Vec<u8>>)
    requires
        old(engine).valid(),
    ensures
        final(engine).valid(),
        match reply {
            Some(bytes) => request_at(received@) is Done && exists|response: ResponseView|
                #[trigger] response_bytes(response) == bytes@ && served(
                    request_at(received@)->value,
                    old(engine).mapping(),
                    final(engine).mapping(),
                    response,
                ),
            None => !(request_at(received@) is Done) && final(engine).mapping() == old(
                engine,
            ).mapping(),
        },
{
    match decode_request(received) {
        Decoding::Done(request, _) => {
            let response = dispatch(engine, request);
            let bytes = encode_response(&response);
            assert(response_bytes(response@) == bytes@);
            Some(bytes)
        },
        _ => None,
    }
}

impl<E: KvsEngine, P: ThreadPool> KvsServer<E, P> {
    /// A server that answers from `engine` and serves its connections on `thread_pool`.
    pub fn new(engine: E, thread_pool: P) -> (server: KvsServer<E, P>)
        ensures
            server.engine == engine,
            server.thread_pool == thread_pool,
    {
        KvsServer { engine, thread_pool }
    }
}

} // verus!
