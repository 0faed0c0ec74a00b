//! The wire format of requests and responses: a compact binary encoding with a fixed
//! schema. A message is its variant's position as four bytes, little-endian, then
//! its strings in order; a string is the length of its UTF-8 text as eight bytes,
//! little-endian, then the text.

use crate::command::{Request, RequestView, Response, ResponseView};
use crate::logdir::append_bytes;
use vstd::bytes::{
    lemma_auto_spec_u32_to_from_le_bytes, lemma_auto_spec_u64_to_from_le_bytes,
    spec_u32_from_le_bytes, spec_u32_to_le_bytes, spec_u64_from_le_bytes, spec_u64_to_le_bytes,
    u32_from_le_bytes, u32_to_le_bytes, u64_from_le_bytes, u64_to_le_bytes,
};
use vstd::prelude::*;
use vstd::slice::{slice_subrange, slice_to_vec};
use vstd::utf8::{
    decode_utf8, encode_utf8, encode_utf8_decode_utf8, encode_utf8_valid_utf8, valid_utf8,
};

verus! {

/// The error of `String::from_utf8`. A value of it is carried, never read.
#[verifier::external_type_specification]
#[verifier::external_body]
pub struct ExFromUtf8Error(std::string::FromUtf8Error);

/// Calls `String::from_utf8`. It succeeds exactly on valid UTF-8, and the string it
/// gives then has the given bytes as its text.
#[verifier::external_body]
fn string_from_utf8(bytes: Vec<u8>) -> (r: Result<String, std::string::FromUtf8Error>)
    ensures
        match r {
            Ok(s) => valid_utf8(bytes@) && encode_utf8(s@) == bytes@,
            Err(_) => !valid_utf8(bytes@),
        },
{
    String::from_utf8(bytes)
}

/// The bytes of a string on the wire.
pub open spec fn text_bytes(s: Seq<char>) -> Seq<u8> {
    spec_u64_to_le_bytes(encode_utf8(s).len() as u64) + encode_utf8(s)
}

/// The bytes of a request on the wire.
pub open spec fn request_bytes(m: RequestView) -> Seq<u8> {
    match m {
        RequestView::Get(k) => spec_u32_to_le_bytes(0) + text_bytes(k),
        RequestView::Put(k, v) => spec_u32_to_le_bytes(1) + text_bytes(k) + text_bytes(v),
        RequestView::Rm(k) => spec_u32_to_le_bytes(2) + text_bytes(k),
    }
}

/// The bytes of a response on the wire.
pub open spec fn response_bytes(m: ResponseView) -> Seq<u8> {
    match m {
        ResponseView::OK(v) => spec_u32_to_le_bytes(0) + text_bytes(v),
        ResponseView::NotFound => spec_u32_to_le_bytes(1),
        ResponseView::Error(t) => spec_u32_to_le_bytes(2) + text_bytes(t),
    }
}

/// The text of the string fits the length field of the wire format.
pub open spec fn text_fits(s: Seq<char>) -> bool {
    encode_utf8(s).len() <= u64::MAX
}

/// The strings of the request fit the wire format.
pub open spec fn request_fits(m: RequestView) -> bool {
    match m {
        RequestView::Get(k) => text_fits(k),
        RequestView::Put(k, v) => text_fits(k) && text_fits(v),
        RequestView::Rm(k) => text_fits(k),
    }
}

/// The strings of the response fit the wire format.
pub open spec fn response_fits(m: ResponseView) -> bool {
    match m {
        ResponseView::OK(v) => text_fits(v),
        ResponseView::NotFound => true,
        ResponseView::Error(t) => text_fits(t),
    }
}

/// What reading from the start of some bytes gives: a value and the index just past
/// it; or that the bytes end before the value does; or that they are no value.
pub enum Parse<T> {
    Done { value: T, end: int },
    Short,
    Bad,
}

/// The variant position found at index `i`.
pub open spec fn tag_at(s: Seq<u8>, i: int) -> Parse<u32> {
    if i + 4 > s.len() {
        Parse::Short
    } else {
        Parse::Done { value: spec_u32_from_le_bytes(s.subrange(i, i + 4)), end: i + 4 }
    }
}

/// The string found at index `i`.
pub open spec fn text_at(s: Seq<u8>, i: int) -> Parse<Seq<char>> {
    if i + 8 > s.len() {
        Parse::Short
    } else {
        let n = spec_u64_from_le_bytes(s.subrange(i, i + 8)) as int;
        if i + 8 + n > s.len() {
            Parse::Short
        } else if !valid_utf8(s.subrange(i + 8, i + 8 + n)) {
            Parse::Bad
        } else {
            Parse::Done { value: decode_utf8(s.subrange(i + 8, i + 8 + n)), end: i + 8 + n }
        }
    }
}

/// The request found at the start of the bytes.
pub open spec fn request_at(s: Seq<u8>) -> Parse<RequestView> {
    match tag_at(s, 0) {
        Parse::Done { value: tag, end } => if tag == 0 {
            match text_at(s, end) {
                Parse::Done { value: k, end } => Parse::Done { value: RequestView::Get(k), end },
                Parse::Short => Parse::Short,
                Parse::Bad => Parse::Bad,
            }
        } else if tag == 1 {
            match text_at(s, end) {
                Parse::Done { value: k, end } => match text_at(s, end) {
                    Parse::Done { value: v, end } => Parse::Done {
                        value: RequestView::Put(k, v),
                        end,
                    },
                    Parse::Short => Parse::Short,
                    Parse::Bad => Parse::Bad,
                },
                Parse::Short => Parse::Short,
                Parse::Bad => Parse::Bad,
            }
        } else if tag == 2 {
            match text_at(s, end) {
                Parse::Done { value: k, end } => Parse::Done { value: RequestView::Rm(k), end },
                Parse::Short => Parse::Short,
                Parse::Bad => Parse::Bad,
            }
        } else {
            Parse::Bad
        },
        Parse::Short => Parse::Short,
        Parse::Bad => Parse::Bad,
    }
}

/// The response found at the start of the bytes.
pub open spec fn response_at(s: Seq<u8>) -> Parse<ResponseView> {
    match tag_at(s, 0) {
        Parse::Done { value: tag, end } => if tag == 0 {
            match text_at(s, end) {
                Parse::Done { value: v, end } => Parse::Done { value: ResponseView::OK(v), end },
                Parse::Short => Parse::Short,
                Parse::Bad => Parse::Bad,
            }
        } else if tag == 1 {
            Parse::Done { value: ResponseView::NotFound, end }
        } else if tag == 2 {
            match text_at(s, end) {
                Parse::Done { value: t, end } => Parse::Done {
                    value: ResponseView::Error(t),
                    end,
                },
                Parse::Short => Parse::Short,
                Parse::Bad => Parse::Bad,
            }
        } else {
            Parse::Bad
        },
        Parse::Short => Parse::Short,
        Parse::Bad => Parse::Bad,
    }
}

/// A string's bytes, wherever they stand, are read as the string.
pub proof fn lemma_text_round_trip(x: Seq<char>, s: Seq<u8>, i: int)
    requires
        text_fits(x),
        0 <= i,
        i + text_bytes(x).len() <= s.len(),
        s.subrange(i, i + text_bytes(x).len()) == text_bytes(x),
    ensures
        text_at(s, i) == (Parse::Done { value: x, end: i + text_bytes(x).len() }),
{
    let body = encode_utf8(x);
    let t = text_bytes(x);
    lemma_auto_spec_u64_to_from_le_bytes();
    assert(spec_u64_to_le_bytes(body.len() as u64).len() == 8);
    assert(s.subrange(i, i + 8) =~= t.subrange(0, 8));
    assert(t.subrange(0, 8) =~= spec_u64_to_le_bytes(body.len() as u64));
    assert(s.subrange(i + 8, i + 8 + body.len()) =~= t.subrange(8, 8 + body.len() as int));
    assert(t.subrange(8, 8 + body.len() as int) =~= body);
    encode_utf8_valid_utf8(x);
    encode_utf8_decode_utf8(x);
}

/// A variant position's bytes, wherever they stand, are read as that position.
pub proof fn lemma_tag_round_trip(tag: u32, s: Seq<u8>, i: int)
    requires
        0 <= i,
        i + 4 <= s.len(),
        s.subrange(i, i + 4) == spec_u32_to_le_bytes(tag),
    ensures
        tag_at(s, i) == (Parse::Done { value: tag, end: i + 4 }),
{
    lemma_auto_spec_u32_to_from_le_bytes();
    assert(spec_u32_to_le_bytes(tag).len() == 4);
}

/// Decoding what was encoded gives the request back, whatever follows it.
pub proof fn lemma_request_round_trip(m: RequestView, rest: Seq<u8>)
    requires
        request_fits(m),
    ensures
        request_at(request_bytes(m) + rest) == (Parse::Done {
            value: m,
            end: request_bytes(m).len() as int,
        }),
{
    let s = request_bytes(m) + rest;
    lemma_auto_spec_u32_to_from_le_bytes();
    match m {
        RequestView::Get(k) => {
            assert(s.subrange(0, 4) =~= spec_u32_to_le_bytes(0));
            lemma_tag_round_trip(0, s, 0);
            assert(s.subrange(4, 4 + text_bytes(k).len() as int) =~= text_bytes(k));
            lemma_text_round_trip(k, s, 4);
        },
        RequestView::Put(k, v) => {
            assert(s.subrange(0, 4) =~= spec_u32_to_le_bytes(1));
            lemma_tag_round_trip(1, s, 0);
            assert(s.subrange(4, 4 + text_bytes(k).len() as int) =~= text_bytes(k));
            lemma_text_round_trip(k, s, 4);
            let e = 4 + text_bytes(k).len() as int;
            assert(s.subrange(e, e + text_bytes(v).len()) =~= text_bytes(v));
            lemma_text_round_trip(v, s, e);
        },
        RequestView::Rm(k) => {
            assert(s.subrange(0, 4) =~= spec_u32_to_le_bytes(2));
            lemma_tag_round_trip(2, s, 0);
            assert(s.subrange(4, 4 + text_bytes(k).len() as int) =~= text_bytes(k));
            lemma_text_round_trip(k, s, 4);
        },
    }
}

/// Decoding what was encoded gives the response back, whatever follows it.
pub proof fn lemma_response_round_trip(m: ResponseView, rest: Seq<u8>)
    requires
        response_fits(m),
    ensures
        response_at(response_bytes(m) + rest) == (Parse::Done {
            value: m,
            end: response_bytes(m).len() as int,
        }),
{
    let s = response_bytes(m) + rest;
    lemma_auto_spec_u32_to_from_le_bytes();
    match m {
        ResponseView::OK(v) => {
            assert(s.subrange(0, 4) =~= spec_u32_to_le_bytes(0));
            lemma_tag_round_trip(0, s, 0);
            assert(s.subrange(4, 4 + text_bytes(v).len() as int) =~= text_bytes(v));
            lemma_text_round_trip(v, s, 4);
        },
        ResponseView::NotFound => {
            assert(s.subrange(0, 4) =~= spec_u32_to_le_bytes(1));
            lemma_tag_round_trip(1, s, 0);
        },
        ResponseView::Error(t) => {
            assert(s.subrange(0, 4) =~= spec_u32_to_le_bytes(2));
            lemma_tag_round_trip(2, s, 0);
            assert(s.subrange(4, 4 + text_bytes(t).len() as int) =~= text_bytes(t));
            lemma_text_round_trip(t, s, 4);
        },
    }
}

/// A string that is read from some bytes is read alike from a beginning of them
/// that holds it whole, and is short in a beginning that does not.
pub proof fn lemma_text_in_prefix(s: Seq<u8>, i: int, n: int)
    requires
        0 <= i <= n <= s.len(),
        text_at(s, i) is Done,
    ensures
        text_at(s, i)->end <= n ==> text_at(s.subrange(0, n), i) == text_at(s, i),
        text_at(s, i)->end > n ==> text_at(s.subrange(0, n), i) == Parse::<Seq<char>>::Short,
{
    let p = s.subrange(0, n);
    if i + 8 <= n {
        assert(p.subrange(i, i + 8) =~= s.subrange(i, i + 8));
        let len = spec_u64_from_le_bytes(s.subrange(i, i + 8)) as int;
        if i + 8 + len <= n {
            assert(p.subrange(i + 8, i + 8 + len) =~= s.subrange(i + 8, i + 8 + len));
        }
    }
}

/// A variant position that is read from some bytes is read alike from a beginning
/// of them that holds it whole, and is short in a beginning that does not.
pub proof fn lemma_tag_in_prefix(s: Seq<u8>, n: int)
    requires
        0 <= n <= s.len(),
        tag_at(s, 0) is Done,
    ensures
        4 <= n ==> tag_at(s.subrange(0, n), 0) == tag_at(s, 0),
        4 > n ==> tag_at(s.subrange(0, n), 0) == Parse::<u32>::Short,
{
    if 4 <= n {
        assert(s.subrange(0, n).subrange(0, 4) =~= s.subrange(0, 4));
    }
}

/// Every proper beginning of an encoded request is short: a reader that goes on
/// reading while the bytes are short stops exactly when the request is whole.
pub proof fn lemma_request_prefix_short(m: RequestView, n: int)
    requires
        request_fits(m),
        0 <= n < request_bytes(m).len(),
    ensures
        request_at(request_bytes(m).subrange(0, n)) == Parse::<RequestView>::Short,
{
    let s = request_bytes(m);
    lemma_request_round_trip(m, Seq::empty());
    assert(s + Seq::<u8>::empty() =~= s);
    lemma_tag_in_prefix(s, n);
    if 4 <= n {
        lemma_text_in_prefix(s, 4, n);
        if let RequestView::Put(k, v) = m {
            let e = text_at(s, 4)->end;
            if e <= n {
                lemma_text_in_prefix(s, e, n);
            }
        }
    }
}

/// Every proper beginning of an encoded response is short.
pub proof fn lemma_response_prefix_short(m: ResponseView, n: int)
    requires
        response_fits(m),
        0 <= n < response_bytes(m).len(),
    ensures
        response_at(response_bytes(m).subrange(0, n)) == Parse::<ResponseView>::Short,
{
    let s = response_bytes(m);
    lemma_response_round_trip(m, Seq::empty());
    assert(s + Seq::<u8>::empty() =~= s);
    lemma_auto_spec_u32_to_from_le_bytes();
    lemma_tag_in_prefix(s, n);
    if 4 <= n {
        if !(m is NotFound) {
            lemma_text_in_prefix(s, 4, n);
        } else {
            assert(spec_u32_to_le_bytes(1).len() == 4);
        }
    }
}

/// What decoding gives: a message and the number of bytes it took; or that the
/// bytes end before the message does; or that they are no message.
#[derive(Debug, PartialEq, Eq)]
pub enum Decoding<T> {
    Done(T, usize),
    Short,
    Bad,
}

/// Adds a string's bytes to `out`.
fn put_text(out: &mut Vec<u8>, s: &String)
    ensures
        final(out)@ == old(out)@ + text_bytes(s@),
        text_fits(s@),
{
    let body = s.as_str().as_bytes();
    let mut length = u64_to_le_bytes(body.len() as u64);
    out.append(&mut length);
    append_bytes(out, body);
    assert(out@ =~= old(out)@ + text_bytes(s@));
}

/// Encodes a request.
pub fn encode_request(m: &Request) -> (out: Vec<u8>)
    ensures
        out@ == request_bytes(m@),
        request_fits(m@),
{
    match m {
        Request::Get(k) => {
            let mut out = u32_to_le_bytes(0);
            put_text(&mut out, k);
            out
        },
        Request::Put(k, v) => {
            let mut out = u32_to_le_bytes(1);
            put_text(&mut out, k);
            put_text(&mut out, v);
            out
        },
        Request::Rm(k) => {
            let mut out = u32_to_le_bytes(2);
            put_text(&mut out, k);
            out
        },
    }
}

/// Encodes a response.
pub fn encode_response(m: &Response) -> (out: Vec<u8>)
    ensures
        out@ == response_bytes(m@),
        response_fits(m@),
{
    match m {
        Response::OK(v) => {
            let mut out = u32_to_le_bytes(0);
            put_text(&mut out, v);
            out
        },
        Response::NotFound => u32_to_le_bytes(1),
        Response::Error(t) => {
            let mut out = u32_to_le_bytes(2);
            put_text(&mut out, t);
            out
        },
    }
}

/// Reads the variant position at index `i`.
fn take_tag(s: &[u8], i: usize) -> (r: Option<(u32, usize)>)
    requires
        i <= s.len(),
    ensures
        match r {
            Some((tag, end)) => tag_at(s@, i as int) == (Parse::Done {
                value: tag,
                end: end as int,
            }) && end <= s.len(),
            None => tag_at(s@, i as int) == Parse::<u32>::Short,
        },
{
    if s.len() - i < 4 {
        return None;
    }
    Some((u32_from_le_bytes(slice_subrange(s, i, i + 4)), i + 4))
}

/// Reads the string at index `i`.
fn take_text(s: &[u8], i: usize) -> (r: Decoding<String>)
    requires
        i <= s.len(),
    ensures
        match r {
            Decoding::Done(text, end) => text_at(s@, i as int) == (Parse::Done {
                value: text@,
                end: end as int,
            }) && end <= s.len(),
            Decoding::Short => text_at(s@, i as int) == Parse::<Seq<char>>::Short,
            Decoding::Bad => text_at(s@, i as int) == Parse::<Seq<char>>::Bad,
        },
{
    if s.len() - i < 8 {
        return Decoding::Short;
    }
    let n = u64_from_le_bytes(slice_subrange(s, i, i + 8));
    let left = s.len() - i - 8;
    if n > left as u64 {
        return Decoding::Short;
    }
    let from = i + 8;
    let to = from + n as usize;
    match string_from_utf8(slice_to_vec(slice_subrange(s, from, to))) {
        Ok(text) => {
            proof {
                encode_utf8_decode_utf8(text@);
            }
            Decoding::Done(text, to)
        },
        Err(_) => Decoding::Bad,
    }
}

/// Decodes the request at the start of the bytes.
pub fn decode_request(s: &[u8]) -> (r: Decoding<Request>)
    ensures
        match r {
            Decoding::Done(m, end) => request_at(s@) == (Parse::Done {
                value: m@,
                end: end as int,
            }) && end <= s.len(),
            Decoding::Short => request_at(s@) == Parse::<RequestView>::Short,
            Decoding::Bad => request_at(s@) == Parse::<RequestView>::Bad,
        },
{
    let (tag, at) = match take_tag(s, 0) {
        Some(found) => found,
        None => {
            return Decoding::Short;
        },
    };
    if tag > 2 {
        return Decoding::Bad;
    }
    let (key, at) = match take_text(s, at) {
        Decoding::Done(text, end) => (text, end),
        Decoding::Short => {
            return Decoding::Short;
        },
        Decoding::Bad => {
            return Decoding::Bad;
        },
    };
    if tag == 0 {
        Decoding::Done(Request::Get(key), at)
    } else if tag == 2 {
        Decoding::Done(Request::Rm(key), at)
    } else {
        match take_text(s, at) {
            Decoding::Done(value, end) => Decoding::Done(Request::Put(key, value), end),
            Decoding::Short => Decoding::Short,
            Decoding::Bad => Decoding::Bad,
        }
    }
}

/// Decodes the response at the start of the bytes.
pub fn decode_response(s: &[u8]) -> (r: Decoding<Response>)
    ensures
        match r {
            Decoding::Done(m, end) => response_at(s@) == (Parse::Done {
                value: m@,
                end: end as int,
            }) && end <= s.len(),
            Decoding::Short => response_at(s@) == Parse::<ResponseView>::Short,
            Decoding::Bad => response_at(s@) == Parse::<ResponseView>::Bad,
        },
{
    let (tag, at) = match take_tag(s, 0) {
        Some(found) => found,
        None => {
            return Decoding::Short;
        },
    };
    if tag > 2 {
        return Decoding::Bad;
    }
    if tag == 1 {
        return Decoding::Done(Response::NotFound, at);
    }
    match take_text(s, at) {
        Decoding::Done(text, end) => if tag == 0 {
            Decoding::Done(Response::OK(text), end)
        } else {
            Decoding::Done(Response::Error(text), end)
        },
        Decoding::Short => Decoding::Short,
        Decoding::Bad => Decoding::Bad,
    }
}

} // verus!
