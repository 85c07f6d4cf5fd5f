//! One request over a stream of its own: the header, the wait for the answer and
//! what the answer means.

use crate::errors::ChatError;
use crate::ids::{Prefix, Topic};
use crate::wire;
use crate::wire::RequestHeader;
use vstd::prelude::*;

verus! {

/// For how long an answer is waited for, in seconds.
pub const REQUEST_TIMEOUT: u64 = 5;

/// What to do about something that is waited for until some time.
#[derive(Debug)]
pub enum Tick<T> {
    /// It is there. A wake-up call that is set has to be cleared.
    Finished { value: T, clear: bool },
    /// The time is over.
    Expired,
    /// Go on waiting. A wake-up call has to be set where none is.
    Wait { arm: bool },
}

/// What to do at `now` about something that is waited for until `until`. It may
/// be there, and a wake-up call may be set.
pub fn timeout<T>(ready: Option<T>, until: u64, now: u64, armed: bool) -> (tick: Tick<T>)
    ensures
        tick == match ready {
            Some(value) => Tick::Finished { value, clear: armed },
            None => if until < now {
                Tick::Expired
            } else {
                Tick::Wait { arm: !armed }
            },
        },
{
    match ready {
        Some(value) => Tick::Finished { value, clear: armed },
        None => if until < now {
            Tick::Expired
        } else {
            Tick::Wait { arm: !armed }
        },
    }
}

/// What goes out for a request: the header, and the encoded body that it
/// announces.
pub fn send_request_low<T, Encode: FnOnce(T) -> Vec<u8>>(
    prefix: Prefix,
    topic: Topic,
    body: T,
    encode: Encode,
) -> (out: (RequestHeader, Vec<u8>))
    requires
        call_requires(encode, (body,)),
    ensures
        call_ensures(encode, (body,), out.1),
        out.0.prefix == prefix,
        out.0.call_id@ == seq![0u8, 0u8, 0u8, 0u8],
        out.0.topic == topic,
        out.0.len@ == wire::be_bytes(out.1@.len() as int),
{
    let bytes: Vec<u8> = encode(body);
    (RequestHeader::new(prefix, topic, bytes.len()), bytes)
}

/// Why a request has no result.
#[derive(Debug)]
pub enum RequestFailure<E, X> {
    /// The answer took too long.
    Timeout,
    /// The connection failed.
    Connection(E),
    /// The answer does not decode.
    InvalidData,
    /// The request was refused.
    Chat(ChatError<X>),
}

/// What is made of the answer to a request. `answer` is `None` where the time ran
/// out, and holds the bytes of the answer where the connection held.
pub fn send_request<R, E, X, Decode: FnOnce(Vec<u8>) -> Option<Result<R, ChatError<X>>>>(
    answer: Option<Result<Vec<u8>, E>>,
    decode: Decode,
) -> (result: Result<R, RequestFailure<E, X>>)
    requires
        answer matches Some(Ok(bytes)) ==> call_requires(decode, (bytes,)),
    ensures
        match answer {
            None => result == Err::<R, RequestFailure<E, X>>(RequestFailure::Timeout),
            Some(Err(error)) => result == Err::<R, RequestFailure<E, X>>(
                RequestFailure::Connection(error),
            ),
            Some(Ok(bytes)) => match result {
                Ok(value) => call_ensures(decode, (bytes,), Some(Ok(value))),
                Err(RequestFailure::Chat(error)) => call_ensures(decode, (bytes,), Some(Err(error))),
                Err(failure) => failure == RequestFailure::<E, X>::InvalidData && call_ensures(
                    decode,
                    (bytes,),
                    None,
                ),
            },
        },
{
    match answer {
        None => Err(RequestFailure::Timeout),
        Some(Err(error)) => Err(RequestFailure::Connection(error)),
        Some(Ok(bytes)) => match decode(bytes) {
            Some(Ok(value)) => Ok(value),
            Some(Err(error)) => Err(RequestFailure::Chat(error)),
            None => Err(RequestFailure::InvalidData),
        },
    }
}

/// Something that is there is taken at once, and the wake-up call is cleared where one
/// is set. Something that is not is waited for up to `until`, with a wake-up call set
/// once, and given up after that.
pub proof fn lemma_waited_for_until<T>(value: T, until: u64, now: u64, armed: bool)
    ensures
        REQUEST_TIMEOUT == 5,
        forall|tick: Tick<T>| #[trigger]
            call_ensures(timeout::<T>, (Some(value), until, now, armed), tick) ==> (
            tick matches Tick::Finished { value: taken, clear } && taken == value && clear
                == armed),
        forall|tick: Tick<T>| #[trigger]
            call_ensures(timeout::<T>, (None, until, now, armed), tick) ==> match tick {
                Tick::Expired => now > until,
                Tick::Wait { arm } => now <= until && arm != armed,
                Tick::Finished { .. } => false,
            },
{
}

/// A request goes out whole, behind a header that says which procedure is asked, about
/// what and how much follows.
pub proof fn lemma_request_goes_out<T, Encode: FnOnce(T) -> Vec<u8>>(
    prefix: Prefix,
    topic: Topic,
    body: T,
    encode: Encode,
)
    ensures
        forall|out: (RequestHeader, Vec<u8>)| #[trigger]
            call_ensures(send_request_low::<T, Encode>, (prefix, topic, body, encode), out) ==> {
                &&& call_ensures(encode, (body,), out.1)
                &&& out.0.prefix == prefix
                &&& out.0.topic == topic
                &&& forall|i: int| 0 <= i < 4 ==> #[trigger] out.0.call_id@[i] == 0
                &&& out.1@.len() < 0x1_0000_0000 ==> out.1@.len() == out.0.len@[0] * 0x100_0000
                    + out.0.len@[1] * 0x1_0000 + out.0.len@[2] * 0x100 + out.0.len@[3]
            },
{
    assert forall|out: (RequestHeader, Vec<u8>)| #[trigger]
        call_ensures(send_request_low::<T, Encode>, (prefix, topic, body, encode), out)
            && out.1@.len() < 0x1_0000_0000 implies out.1@.len() == out.0.len@[0] * 0x100_0000
        + out.0.len@[1] * 0x1_0000 + out.0.len@[2] * 0x100 + out.0.len@[3] by {
        wire::lemma_most_significant_first(out.1@.len() as int);
    }
}

/// A request has the value that its answer decodes to, or the error that it decodes
/// to. Otherwise the error tells whether time ran out, the connection failed or the
/// answer does not decode.
pub proof fn lemma_answer_decides<
    R,
    E,
    X,
    Decode: FnOnce(Vec<u8>) -> Option<Result<R, ChatError<X>>>,
>(bytes: Vec<u8>, error: E, decode: Decode)
    ensures
        forall|result: Result<R, RequestFailure<E, X>>| #[trigger]
            call_ensures(send_request::<R, E, X, Decode>, (None, decode), result) ==> (
            result matches Err(failure) && failure is Timeout),
        forall|result: Result<R, RequestFailure<E, X>>| #[trigger]
            call_ensures(send_request::<R, E, X, Decode>, (Some(Err(error)), decode), result) ==> (
            result matches Err(RequestFailure::Connection(why)) && why == error),
        forall|result: Result<R, RequestFailure<E, X>>| #[trigger]
            call_ensures(send_request::<R, E, X, Decode>, (Some(Ok(bytes)), decode), result)
                ==> match result {
                Ok(value) => call_ensures(decode, (bytes,), Some(Ok(value))),
                Err(RequestFailure::Chat(why)) => call_ensures(decode, (bytes,), Some(Err(why))),
                Err(RequestFailure::InvalidData) => call_ensures(decode, (bytes,), None),
                Err(_) => false,
            },
{
}

} // verus!
