//! Headers that precede requests and responses on a stream, and the length
//! prefixed frames that travel over pipes.

use crate::ids::{CallId, Prefix, Topic};
use vstd::prelude::*;

verus! {

/// The low 32 bits of `n` as four bytes, least significant first.
pub open spec fn le_bytes(n: int) -> Seq<u8> {
    seq![
        (n % 256) as u8,
        (n / 256 % 256) as u8,
        (n / 65536 % 256) as u8,
        (n / 16777216 % 256) as u8,
    ]
}

/// The number that four bytes stand for, least significant first.
pub open spec fn le_number(bytes: Seq<u8>) -> int {
    bytes[0] + 256 * bytes[1] + 65536 * bytes[2] + 16777216 * bytes[3]
}

/// The low 32 bits of `n` as four bytes, most significant first.
pub open spec fn be_bytes(n: int) -> Seq<u8> {
    le_bytes(n).reverse()
}

/// The number that four bytes stand for, most significant first.
pub open spec fn be_number(bytes: Seq<u8>) -> int {
    le_number(bytes.reverse())
}

/// The four bytes of a length, least significant first. Only the low 32 bits
/// of the length survive.
pub fn to_le(n: usize) -> (bytes: [u8; 4])
    ensures
        bytes@ == le_bytes(n as int),
{
    let bytes: [u8; 4] = [
        (n % 256) as u8,
        (n / 256 % 256) as u8,
        (n / 65536 % 256) as u8,
        (n / 16777216 % 256) as u8,
    ];
    assert(bytes@ =~= le_bytes(n as int));
    bytes
}

/// The length that four bytes stand for, least significant first.
pub fn from_le(bytes: [u8; 4]) -> (n: usize)
    ensures
        n == le_number(bytes@),
{
    bytes[0] as usize + 256 * (bytes[1] as usize) + 65536 * (bytes[2] as usize) + 16777216 * (
    bytes[3] as usize)
}

/// The four bytes of a length, most significant first. Only the low 32 bits
/// of the length survive.
pub fn to_be(n: usize) -> (bytes: [u8; 4])
    ensures
        bytes@ == be_bytes(n as int),
{
    let le: [u8; 4] = to_le(n);
    let bytes: [u8; 4] = [le[3], le[2], le[1], le[0]];
    assert(bytes@ =~= le_bytes(n as int).reverse());
    bytes
}

/// The length that four bytes stand for, most significant first.
pub fn from_be(bytes: [u8; 4]) -> (n: usize)
    ensures
        n == be_number(bytes@),
{
    from_le([bytes[3], bytes[2], bytes[1], bytes[0]])
}

/// Reading the bytes of a length gives back its low 32 bits, in either order.
pub proof fn lemma_length_round_trip(n: int)
    requires
        0 <= n,
    ensures
        le_number(le_bytes(n)) == n % 0x1_0000_0000,
        be_number(be_bytes(n)) == n % 0x1_0000_0000,
{
    assert(be_bytes(n).reverse() =~= le_bytes(n));
    let a = n / 256;
    let b = n / 65536;
    let c = n / 16777216;
    let d = n / 0x1_0000_0000;
    assert(n % 256 == n - 256 * a);
    assert(b == a / 256 && c == b / 256 && d == c / 256);
}

/// What precedes a request on a stream between two nodes, or between a client
/// and a node.
#[derive(Clone, Copy, Debug)]
pub struct RequestHeader {
    pub prefix: Prefix,
    pub call_id: CallId,
    pub topic: Topic,
    /// Length of the body, most significant byte first.
    pub len: [u8; 4],
}

/// What precedes a response on a stream.
#[derive(Clone, Copy, Debug)]
pub struct ResponseHeader {
    pub call_id: CallId,
    /// Length of the body, most significant byte first.
    pub len: [u8; 4],
}

impl RequestHeader {
    /// The header of a request that is alone on its stream: its call id is
    /// zero, and only the low 32 bits of the body's length are carried.
    pub fn new(prefix: Prefix, topic: Topic, body_len: usize) -> (header: RequestHeader)
        ensures
            header.prefix == prefix,
            header.call_id@ == seq![0u8, 0u8, 0u8, 0u8],
            header.topic == topic,
            header.len@ == be_bytes(body_len as int),
    {
        let call_id: [u8; 4] = [0, 0, 0, 0];
        assert(call_id@ =~= seq![0u8, 0u8, 0u8, 0u8]);
        RequestHeader { prefix, call_id, topic, len: to_be(body_len) }
    }

    /// Length of the body that follows.
    pub fn get_len(&self) -> (len: usize)
        ensures
            len == be_number(self.len@),
    {
        from_be(self.len)
    }
}

impl ResponseHeader {
    /// The header of a response to the call `call_id`. Only the low 32 bits of
    /// the body's length are carried.
    pub fn new(call_id: CallId, body_len: usize) -> (header: ResponseHeader)
        ensures
            header.call_id == call_id,
            header.len@ == be_bytes(body_len as int),
    {
        ResponseHeader { call_id, len: to_be(body_len) }
    }

    /// Length of the body that follows.
    pub fn get_len(&self) -> (len: usize)
        ensures
            len == be_number(self.len@),
    {
        from_be(self.len)
    }
}

/// The peer that reads a header reads the length that was announced, for every
/// body shorter than 4 GiB.
pub proof fn lemma_header_announces_body(header_len: Seq<u8>, body_len: int)
    requires
        0 <= body_len < 0x1_0000_0000,
        header_len == be_bytes(body_len),
    ensures
        be_number(header_len) == body_len,
{
    lemma_length_round_trip(body_len);
}

/// A body behind its length, least significant byte first.
pub open spec fn framed(body: Seq<u8>) -> Seq<u8> {
    le_bytes(body.len() as int) + body
}

/// Puts the length of `body` in front of it.
pub fn frame(body: &Vec<u8>) -> (out: Vec<u8>)
    ensures
        out@ == framed(body@),
{
    let prefix: [u8; 4] = to_le(body.len());
    let mut out: Vec<u8> = Vec::new();
    out.push(prefix[0]);
    out.push(prefix[1]);
    out.push(prefix[2]);
    out.push(prefix[3]);
    assert(out@ =~= le_bytes(body@.len() as int));
    extend(&mut out, body);
    out
}

/// A reader that takes four bytes for the length and then that many bytes gets
/// back the body and stops where the frame ends, for every body shorter than
/// 4 GiB.
pub proof fn lemma_frame_read_back(body: Seq<u8>, rest: Seq<u8>)
    requires
        body.len() < 0x1_0000_0000,
    ensures
        ({
            let input = framed(body) + rest;
            let len = le_number(input.take(4));
            &&& len == body.len()
            &&& input.skip(4).take(len) == body
            &&& input.skip(4 + len) == rest
        }),
{
    let input = framed(body) + rest;
    lemma_length_round_trip(body.len() as int);
    assert(input.take(4) =~= le_bytes(body.len() as int));
    assert(input.skip(4).take(body.len() as int) =~= body);
    assert(input.skip(4 + body.len() as int) =~= rest);
}

/// Appends `tail` to `out`.
pub fn extend(out: &mut Vec<u8>, tail: &[u8])
    ensures
        final(out)@ == old(out)@ + tail@,
{
    out.extend_from_slice(tail);
    assert(out@ =~= old(out)@ + tail@);
}

/// The bytes of a length in their places: the most significant first in a header, the
/// least significant first in a frame. Together they make up its low 32 bits.
pub proof fn lemma_most_significant_first(n: int)
    requires
        0 <= n < 0x1_0000_0000,
    ensures
        be_bytes(n).len() == 4,
        n == be_bytes(n)[0] * 0x100_0000 + be_bytes(n)[1] * 0x1_0000 + be_bytes(n)[2] * 0x100
            + be_bytes(n)[3],
        le_bytes(n).len() == 4,
        n == le_bytes(n)[3] * 0x100_0000 + le_bytes(n)[2] * 0x1_0000 + le_bytes(n)[1] * 0x100
            + le_bytes(n)[0],
{
    lemma_length_round_trip(n);
    vstd::arithmetic::div_mod::lemma_small_mod(n as nat, 0x1_0000_0000);
}

/// Lengths are written in the order of bytes that their names say, and read in the
/// same. Only the low 32 bits are.
pub proof fn lemma_lengths_written_and_read(n: usize, given: [u8; 4])
    ensures
        forall|bytes: [u8; 4]| #[trigger]
            call_ensures(to_le, (n,), bytes) ==> n as int % 0x1_0000_0000 == bytes@[0] + bytes@[1]
                * 0x100 + bytes@[2] * 0x1_0000 + bytes@[3] * 0x100_0000,
        forall|bytes: [u8; 4]| #[trigger]
            call_ensures(to_be, (n,), bytes) ==> n as int % 0x1_0000_0000 == bytes@[3] + bytes@[2]
                * 0x100 + bytes@[1] * 0x1_0000 + bytes@[0] * 0x100_0000,
        forall|len: usize| #[trigger]
            call_ensures(from_le, (given,), len) ==> len == given@[0] + given@[1] * 0x100
                + given@[2] * 0x1_0000 + given@[3] * 0x100_0000,
        forall|len: usize| #[trigger]
            call_ensures(from_be, (given,), len) ==> len == given@[3] + given@[2] * 0x100
                + given@[1] * 0x1_0000 + given@[0] * 0x100_0000,
{
    lemma_length_round_trip(n as int);
}

/// A header says which procedure is asked, about what and under which call, and
/// announces the length of the body, which is what a reader of it finds.
pub proof fn lemma_headers_say_what_follows(
    prefix: Prefix,
    topic: Topic,
    call_id: CallId,
    body_len: usize,
)
    ensures
        forall|header: RequestHeader| #[trigger]
            call_ensures(RequestHeader::new, (prefix, topic, body_len), header) ==> {
                &&& header.prefix == prefix
                &&& header.topic == topic
                &&& forall|i: int| 0 <= i < 4 ==> #[trigger] header.call_id@[i] == 0
                &&& body_len as int % 0x1_0000_0000 == header.len@[0] * 0x100_0000 + header.len@[1]
                    * 0x1_0000 + header.len@[2] * 0x100 + header.len@[3]
            },
        forall|header: ResponseHeader| #[trigger]
            call_ensures(ResponseHeader::new, (call_id, body_len), header) ==> {
                &&& header.call_id == call_id
                &&& body_len as int % 0x1_0000_0000 == header.len@[0] * 0x100_0000 + header.len@[1]
                    * 0x1_0000 + header.len@[2] * 0x100 + header.len@[3]
            },
        forall|header: RequestHeader, len: usize| #[trigger]
            call_ensures(RequestHeader::get_len, (&header,), len) ==> len == header.len@[0]
                * 0x100_0000 + header.len@[1] * 0x1_0000 + header.len@[2] * 0x100 + header.len@[3],
        forall|header: ResponseHeader, len: usize| #[trigger]
            call_ensures(ResponseHeader::get_len, (&header,), len) ==> len == header.len@[0]
                * 0x100_0000 + header.len@[1] * 0x1_0000 + header.len@[2] * 0x100 + header.len@[3],
{
    lemma_length_round_trip(body_len as int);
}

/// A frame is the body as it is behind four bytes of length, and what is appended
/// comes behind what is there.
pub proof fn lemma_frame_holds_the_body(body: Vec<u8>, tail: &[u8])
    ensures
        forall|out: Vec<u8>| #[trigger]
            call_ensures(frame, (&body,), out) ==> {
                &&& out@.len() == body@.len() + 4
                &&& forall|i: int| 0 <= i < body@.len() ==> out@[i + 4] == #[trigger] body@[i]
                &&& body@.len() as int % 0x1_0000_0000 == out@[0] + out@[1] * 0x100 + out@[2]
                    * 0x1_0000 + out@[3] * 0x100_0000
            },
        forall|out: &mut Vec<u8>, done: ()| #[trigger]
            call_ensures(extend, (out, tail), done) ==> {
                &&& final(out)@.len() == out@.len() + tail@.len()
                &&& forall|i: int| 0 <= i < out@.len() ==> #[trigger] final(out)@[i] == out@[i]
                &&& forall|i: int|
                    0 <= i < tail@.len() ==> final(out)@[out@.len() + i] == #[trigger] tail@[i]
            },
{
    lemma_length_round_trip(body@.len() as int);
}

} // verus!
