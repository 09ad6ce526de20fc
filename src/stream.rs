//! The request that is sent, and the gathering of what comes back.
use vstd::prelude::*;
use vstd::utf8::{decode_utf8, encode_utf8, encode_utf8_decode_utf8, valid_utf8};
use crate::response::{outcome_model, outcome_view, parse_response, ErrorView, RequestError, Response, ResponseView};

verus! {

/// The request for `path` on `host`: a request line, a `Host` header and a
/// blank line, each ended by CRLF.
pub open spec fn request_model(host: Seq<char>, path: Seq<char>) -> Seq<char> {
    "GET "@ + path + " HTTP/1.0\r\nHost: "@ + host + "\r\n\r\n"@
}

/// The text of the request for `path` on `host`.
pub fn request_text(host: &str, path: &str) -> (r: String)
    ensures
        r@ == request_model(host@, path@),
{
    let mut r = String::from_str("GET ");
    r.append(path);
    r.append(" HTTP/1.0\r\nHost: ");
    r.append(host);
    r.append("\r\n\r\n");
    r
}

pub open spec fn invalid_encoding() -> Seq<char> {
    "invalid text encoding"@
}

/// The outcome of a fetch whose stream carried `b`.
pub open spec fn bytes_outcome(b: Seq<u8>) -> Result<ResponseView, ErrorView> {
    if valid_utf8(b) {
        outcome_model(decode_utf8(b))
    } else {
        Err(ErrorView::MalformedResponse(invalid_encoding()))
    }
}

/// Relies on std::str::from_utf8: it accepts exactly the valid UTF-8 byte
/// strings, and the text it hands back is the one those bytes encode.
#[verifier::external_body]
fn utf8_text(bytes: &[u8]) -> (r: Option<&str>)
    ensures
        r is Some <==> valid_utf8(bytes@),
        r matches Some(t) ==> encode_utf8(t@) == bytes@,
{
    std::str::from_utf8(bytes).ok()
}

/// The outcome of a fetch whose stream carried `bytes`.
pub fn response_from_bytes(bytes: &[u8]) -> (r: Result<Response, RequestError>)
    ensures
        outcome_view(r) == bytes_outcome(bytes@),
        r matches Ok(resp) ==> resp.wf(),
{
    match utf8_text(bytes) {
        Some(t) => {
            proof {
                encode_utf8_decode_utf8(t@);
            }
            parse_response(t)
        },
        None => Err(RequestError::MalformedResponse(String::from_str("invalid text encoding"))),
    }
}

/// Gathers the bytes of a response stream, read by read. Text is decoded only
/// once the stream has ended, so a character whose bytes two reads share is
/// decoded whole.
pub struct Accumulator {
    received: Vec<u8>,
}

impl View for Accumulator {
    type V = Seq<u8>;

    closed spec fn view(&self) -> Seq<u8> {
        self.received@
    }
}

/// The bytes gathered after each of `reads` was handed over in turn.
pub open spec fn received_after(reads: Seq<Seq<u8>>) -> Seq<u8>
    decreases reads.len(),
{
    if reads.len() == 0 {
        Seq::empty()
    } else {
        received_after(reads.drop_last()) + reads.last()
    }
}

impl Accumulator {
    pub fn new() -> (r: Accumulator)
        ensures
            r@ == Seq::<u8>::empty(),
    {
        Accumulator { received: Vec::new() }
    }

    /// Takes what one read returned. The result says whether to read again:
    /// a read of no bytes marks the end of the stream.
    pub fn on_read(&mut self, chunk: &[u8]) -> (more: bool)
        ensures
            final(self)@ == old(self)@ + chunk@,
            more == (chunk@.len() > 0),
    {
        let mut i: usize = 0;
        while i < chunk.len()
            invariant
                i <= chunk@.len(),
                self@ == old(self)@ + chunk@.take(i as int),
            decreases chunk@.len() - i,
        {
            self.received.push(chunk[i]);
            assert(chunk@.take(i + 1) =~= chunk@.take(i as int).push(chunk@[i as int]));
            i = i + 1;
        }
        assert(chunk@.take(i as int) =~= chunk@);
        chunk.len() > 0
    }

    /// The outcome of the fetch, from all that was gathered.
    pub fn finish(&self) -> (r: Result<Response, RequestError>)
        ensures
            outcome_view(r) == bytes_outcome(self@),
            r matches Ok(resp) ==> resp.wf(),
    {
        response_from_bytes(self.received.as_slice())
    }
}

/// However a stream's bytes are cut into reads, what is gathered is the bytes
/// as a whole, and so is the outcome.
pub proof fn outcome_ignores_read_boundaries(reads: Seq<Seq<u8>>)
    ensures
        received_after(reads) == reads.flatten(),
        bytes_outcome(received_after(reads)) == bytes_outcome(reads.flatten()),
    decreases reads.len(),
{
    if reads.len() > 0 {
        outcome_ignores_read_boundaries(reads.drop_last());
        reads.drop_last().lemma_flatten_push(reads.last());
        assert(reads.drop_last().push(reads.last()) =~= reads);
    }
}

} // verus!
