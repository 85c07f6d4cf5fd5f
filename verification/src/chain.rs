//! The link between a server and the process that speaks to the chain: what is
//! asked and answered, how requests are numbered and written to the pipe, and
//! who gets an answer.

use crate::ids::NodeId;
use crate::net::SocketAddr;
use crate::wire;
use std::collections::HashMap;
use vstd::prelude::*;

verus! {

broadcast use vstd::std_specs::hash::group_hash_axioms;

/// What a subscription is looked up by.
pub type Topic = [u8; 32];

/// Seconds from the Unix epoch.
pub type Timestamp = u64;

/// Amount of tokens.
pub type Balance = u128;

/// Nodes and their addresses.
pub type NodeVec = Vec<(NodeId, SocketAddr)>;

/// What can be asked of the chain.
#[derive(Clone, Copy, Debug)]
pub enum RequestBody {
    GetSub { topic: Topic },
    VoteIfPossible { source: NodeId, target: NodeId },
    ListNodes,
}

/// A question with the number that its answer will carry.
#[derive(Clone, Copy, Debug)]
pub struct Request {
    pub id: usize,
    pub body: RequestBody,
}

/// What comes back from the chain: an answer, or something that happened.
#[derive(Debug)]
pub enum Response {
    Body { id: usize, body: Vec<u8> },
    Event(NodeEvent),
}

/// A paid subscription.
#[derive(Clone, Copy, Debug)]
pub struct Subscription {
    pub topic: Topic,
    pub amount: Balance,
    pub timetsmp: Timestamp,
}

/// What happens to the nodes that staked on the chain.
#[derive(Clone, Copy, Debug)]
pub enum NodeEvent {
    Join { node: NodeId, addr: SocketAddr },
    AddrChanged { node: NodeId, addr: SocketAddr },
    Left { node: NodeId },
    Voted { source: NodeId, target: NodeId },
}

/// The number that follows `id`. Numbers start over when they run out.
pub open spec fn next_id(id: usize) -> usize {
    if id == usize::MAX {
        0
    } else {
        (id + 1) as usize
    }
}

impl Request {
    /// Numbers a question with the counter, which moves on.
    pub fn new(counter: &mut usize, body: RequestBody) -> (request: Request)
        ensures
            request.id == *old(counter),
            request.body == body,
            *final(counter) == next_id(*old(counter)),
    {
        let id: usize = *counter;
        *counter = if id == usize::MAX {
            0
        } else {
            id + 1
        };
        Request { id, body }
    }

    /// The answer to this question.
    pub fn answer(&self, body: Vec<u8>) -> (response: Response)
        ensures
            response == (Response::Body { id: self.id, body }),
    {
        Response::Body { id: self.id, body }
    }
}

/// The server's end of the link. `W` is told the answer to one question.
pub struct Client<W> {
    pending: HashMap<usize, W>,
    buffer: Vec<u8>,
}

/// Mathematical contents of a `Client`.
#[verifier::ext_equal]
pub struct ClientModel<W> {
    /// Who waits for which answer.
    pub pending: Map<usize, W>,
    /// Everything that was encoded so far.
    pub buffer: Seq<u8>,
}

impl<W> View for Client<W> {
    type V = ClientModel<W>;

    closed spec fn view(&self) -> ClientModel<W> {
        ClientModel { pending: self.pending@, buffer: self.buffer@ }
    }
}

/// `request` asks `body` under the next number. The counter moves on.
pub open spec fn asked(before: usize, body: RequestBody, after: usize, request: Request) -> bool {
    &&& request.id == before
    &&& request.body == body
    &&& after == next_id(before)
}

/// What a response means to the server.
pub enum Received<W> {
    /// An answer, and who waits for it.
    Answer(W, Vec<u8>),
    /// Something happened.
    Event(NodeEvent),
}

/// Why a question has no answer.
#[derive(Clone, Copy, Debug, PartialEq, Eq, Structural)]
pub enum RequestError {
    /// The question could not be handed on.
    ConnectionAborted,
    /// Nobody is left to answer.
    Interrupted,
    /// The answer does not decode.
    InvalidData,
}

impl<W> Client<W> {
    /// A link over which nothing was asked yet.
    pub fn new() -> (client: Self)
        ensures
            client@ == (ClientModel::<W> {
                pending: Map::empty(),
                buffer: Seq::empty(),
            }),
    {
        let client = Client { pending: HashMap::new(), buffer: Vec::new() };
        assert(client@ =~= (ClientModel::<W> {
            pending: Map::empty(),
            buffer: Seq::empty(),
        }));
        client
    }

    /// Asks for the subscription to a topic. The counter numbers the questions of
    /// all links together.
    pub fn get_sub(&self, counter: &mut usize, topic: Topic) -> (request: Request)
        ensures
            asked(*old(counter), RequestBody::GetSub { topic }, *final(counter), request),
    {
        Request::new(counter, RequestBody::GetSub { topic })
    }

    /// Asks to vote against a node where that is possible.
    pub fn vote_if_possible(&self, counter: &mut usize, source: NodeId, target: NodeId) -> (request:
        Request)
        ensures
            asked(
                *old(counter),
                RequestBody::VoteIfPossible { source, target },
                *final(counter),
                request,
            ),
    {
        Request::new(counter, RequestBody::VoteIfPossible { source, target })
    }

    /// Asks for all nodes.
    pub fn list_nodes(&self, counter: &mut usize) -> (request: Request)
        ensures
            asked(*old(counter), RequestBody::ListNodes, *final(counter), request),
    {
        Request::new(counter, RequestBody::ListNodes)
    }

    /// Notes who waits for the answer to a request and gives what goes to the
    /// pipe: everything encoded so far, the request last, behind its length.
    pub fn submit<Encode: FnOnce(&Request) -> Vec<u8>>(
        &mut self,
        request: &Request,
        waiter: W,
        encode: Encode,
    ) -> (frame: Vec<u8>)
        requires
            call_requires(encode, (request,)),
        ensures
            exists|bytes: Vec<u8>| #[trigger]
                call_ensures(encode, (request,), bytes) && submitted(
                    old(self)@,
                    request.id,
                    waiter,
                    bytes@,
                    final(self)@,
                    frame@,
                ),
    {
        let bytes: Vec<u8> = encode(request);
        self.pending.insert(request.id, waiter);
        wire::extend(&mut self.buffer, &bytes);
        assert(call_ensures(encode, (request,), bytes));
        wire::frame(&self.buffer)
    }

    /// Whether somebody waits for the answer to question `id`.
    pub fn expects(&self, id: usize) -> (expected: bool)
        ensures
            expected == self@.pending.contains_key(id),
    {
        self.pending.contains_key(&id)
    }

    /// A response came in. Only awaited answers may come.
    pub fn receive(&mut self, response: Response) -> (received: Received<W>)
        requires
            response matches Response::Body { id, .. } ==> old(self)@.pending.contains_key(id),
        ensures
            delivered(old(self)@, response, final(self)@, received),
    {
        match response {
            Response::Body { id, body } => {
                let waiter: W = self.pending.remove(&id).unwrap();
                Received::Answer(waiter, body)
            },
            Response::Event(event) => Received::Event(event),
        }
    }
}

/// Question `id`, encoded as `bytes`, went out in `frame` for `waiter`.
pub open spec fn submitted<W>(
    before: ClientModel<W>,
    id: usize,
    waiter: W,
    bytes: Seq<u8>,
    after: ClientModel<W>,
    frame: Seq<u8>,
) -> bool {
    &&& after == ClientModel {
        pending: before.pending.insert(id, waiter),
        buffer: before.buffer + bytes,
        ..before
    }
    &&& frame == wire::framed(before.buffer + bytes)
}

/// `response` goes to whoever waits for it, who then no longer does.
pub open spec fn delivered<W>(
    before: ClientModel<W>,
    response: Response,
    after: ClientModel<W>,
    received: Received<W>,
) -> bool {
    match response {
        Response::Body { id, body } => {
            &&& received == Received::Answer(before.pending[id], body)
            &&& after == ClientModel { pending: before.pending.remove(id), ..before }
        },
        Response::Event(event) => received == Received::<W>::Event(event) && after == before,
    }
}

/// Makes of a reply the value that was asked for. `handed_on` tells whether the
/// question reached the pipe; `reply` is what came back, if anything did.
pub fn conclude<T, Decode: FnOnce(Vec<u8>) -> Option<T>>(
    handed_on: bool,
    reply: Option<Vec<u8>>,
    decode: Decode,
) -> (value: Result<T, RequestError>)
    requires
        handed_on ==> (reply matches Some(bytes) ==> call_requires(decode, (bytes,))),
    ensures
        if !handed_on {
            value == Err::<T, RequestError>(RequestError::ConnectionAborted)
        } else {
            match reply {
                None => value == Err::<T, RequestError>(RequestError::Interrupted),
                Some(bytes) => match value {
                    Ok(decoded) => call_ensures(decode, (bytes,), Some(decoded)),
                    Err(error) => error == RequestError::InvalidData && call_ensures(
                        decode,
                        (bytes,),
                        None,
                    ),
                },
            }
        },
{
    if !handed_on {
        return Err(RequestError::ConnectionAborted);
    }
    match reply {
        None => Err(RequestError::Interrupted),
        Some(bytes) => match decode(bytes) {
            Some(decoded) => Ok(decoded),
            None => Err(RequestError::InvalidData),
        },
    }
}

/// The answer to a question goes to whoever asked it, and nobody waits for it
/// afterwards.
pub proof fn lemma_answer_reaches_asker<W>(
    before: ClientModel<W>,
    request: Request,
    waiter: W,
    bytes: Seq<u8>,
    after: ClientModel<W>,
    frame: Seq<u8>,
    body: Vec<u8>,
    end: ClientModel<W>,
    received: Received<W>,
)
    requires
        submitted(before, request.id, waiter, bytes, after, frame),
        delivered(after, Response::Body { id: request.id, body }, end, received),
    ensures
        received == Received::Answer(waiter, body),
        end.pending == before.pending.remove(request.id),
{
    assert(end.pending =~= before.pending.remove(request.id));
}

/// The number of the question that follows `n` others, the first of which has
/// the number `first`.
pub open spec fn nth_id(first: usize, n: nat) -> usize
    decreases n,
{
    if n == 0 {
        first
    } else {
        next_id(nth_id(first, (n - 1) as nat))
    }
}

proof fn lemma_nth_id(first: usize, n: nat)
    ensures
        nth_id(first, n) == (first + n) % (usize::MAX + 1),
    decreases n,
{
    let all: int = usize::MAX + 1;
    if n == 0 {
        vstd::arithmetic::div_mod::lemma_small_mod(first as nat, all as nat);
    } else {
        let before = (n - 1) as nat;
        lemma_nth_id(first, before);
        let id = nth_id(first, before);
        vstd::arithmetic::div_mod::lemma_add_mod_noop_right(1, first + before, all);
        assert((1 + (first + before) % all) % all == (1 + (first + before)) % all);
        if id == usize::MAX {
            vstd::arithmetic::div_mod::lemma_mod_self_0(all);
        } else {
            vstd::arithmetic::div_mod::lemma_small_mod((id + 1) as nat, all as nat);
        }
    }
}

/// Questions that one counter numbers carry different numbers, over whichever links
/// they go, unless there are as many questions between them as there are numbers.
pub proof fn lemma_questions_numbered_apart(first: usize, n: nat, m: nat)
    requires
        n < m <= n + usize::MAX,
    ensures
        nth_id(first, n) != nth_id(first, m),
{
    let all: int = usize::MAX + 1;
    lemma_nth_id(first, n);
    lemma_nth_id(first, m);
    if nth_id(first, n) == nth_id(first, m) {
        vstd::arithmetic::div_mod::lemma_sub_mod_noop(first + m, first + n, all);
        vstd::arithmetic::div_mod::lemma_small_mod((m - n) as nat, all as nat);
        vstd::arithmetic::div_mod::lemma_small_mod(0, all as nat);
    }
}

/// The first question that goes out over a link is read back at the other end
/// of the pipe as it was encoded.
pub proof fn lemma_first_question_read_back<W>(
    before: ClientModel<W>,
    id: usize,
    waiter: W,
    bytes: Seq<u8>,
    after: ClientModel<W>,
    frame: Seq<u8>,
)
    requires
        before.buffer.len() == 0,
        bytes.len() < 0x1_0000_0000,
        submitted(before, id, waiter, bytes, after, frame),
    ensures
        wire::le_number(frame.take(4)) == bytes.len(),
        frame.skip(4) == bytes,
{
    assert(before.buffer + bytes =~= bytes);
    wire::lemma_frame_read_back(bytes, Seq::empty());
    assert(frame + Seq::empty() =~= frame);
    assert(frame.skip(4).take(bytes.len() as int) =~= frame.skip(4));
}

/// A question carries the number of the counter, which then is one higher and starts
/// over at zero where it cannot be. It asks what it is made for, and its answer
/// carries the same number.
pub proof fn lemma_question_carries_the_counter<W>(
    client: Client<W>,
    topic: Topic,
    source: NodeId,
    target: NodeId,
    question: RequestBody,
)
    ensures
        forall|counter: &mut usize, request: Request| #[trigger]
            call_ensures(Request::new, (counter, question), request) ==> {
                &&& request.id == *counter
                &&& request.body == question
                &&& *final(counter) == (*counter + 1) % (usize::MAX + 1)
            },
        forall|counter: &mut usize, request: Request| #[trigger]
            call_ensures(Client::<W>::get_sub, (&client, counter, topic), request) ==> {
                &&& request.id == *counter
                &&& request.body matches RequestBody::GetSub { topic: of } && of == topic
                &&& *final(counter) == (*counter + 1) % (usize::MAX + 1)
            },
        forall|counter: &mut usize, request: Request| #[trigger]
            call_ensures(
                Client::<W>::vote_if_possible,
                (&client, counter, source, target),
                request,
            ) ==> {
                &&& request.id == *counter
                &&& request.body matches RequestBody::VoteIfPossible { source: by, target: of }
                    && by == source && of == target
                &&& *final(counter) == (*counter + 1) % (usize::MAX + 1)
            },
        forall|counter: &mut usize, request: Request| #[trigger]
            call_ensures(Client::<W>::list_nodes, (&client, counter), request) ==> {
                &&& request.id == *counter
                &&& request.body is ListNodes
                &&& *final(counter) == (*counter + 1) % (usize::MAX + 1)
            },
        forall|request: Request, body: Vec<u8>, response: Response| #[trigger]
            call_ensures(Request::answer, (&request, body), response) ==> (
            response matches Response::Body { id, body: of } && id == request.id && of == body),
{
    let all: int = usize::MAX + 1;
    assert forall|n: usize| #[trigger] next_id(n) == (n + 1) % all by {
        if n == usize::MAX {
            vstd::arithmetic::div_mod::lemma_mod_self_0(all);
        } else {
            vstd::arithmetic::div_mod::lemma_small_mod((n + 1) as nat, all as nat);
        }
    }
}

/// Whoever asks waits under the number of the question, beside those who do already.
/// What goes out is everything encoded so far, the question last, behind the number of
/// these bytes, least significant byte first.
pub proof fn lemma_question_goes_out<W, Encode: FnOnce(&Request) -> Vec<u8>>(
    request: Request,
    waiter: W,
    encode: Encode,
)
    ensures
        forall|client: &mut Client<W>, frame: Vec<u8>| #[trigger]
            call_ensures(
                Client::<W>::submit::<Encode>,
                (client, &request, waiter, encode),
                frame,
            ) ==> exists|bytes: Vec<u8>| #[trigger]
                call_ensures(encode, (&request,), bytes) && {
                    let all = client@.buffer + bytes@;
                    &&& final(client)@.buffer == all
                    &&& frame@.len() == 4 + all.len()
                    &&& frame@.skip(4) == all
                    &&& all.len() < 0x1_0000_0000 ==> all.len() == frame@[0] + frame@[1] * 0x100
                        + frame@[2] * 0x1_0000 + frame@[3] * 0x100_0000
                    &&& final(client)@.pending.contains_key(request.id)
                    &&& final(client)@.pending[request.id] == waiter
                    &&& forall|id: usize|
                        id != request.id ==> (#[trigger] final(client)@.pending.contains_key(id)
                            <==> client@.pending.contains_key(id)) && (
                        client@.pending.contains_key(id) ==> final(client)@.pending[id]
                            == client@.pending[id])
                },
{
    assert forall|client: &mut Client<W>, frame: Vec<u8>| #[trigger]
        call_ensures(
            Client::<W>::submit::<Encode>,
            (client, &request, waiter, encode),
            frame,
        ) implies exists|bytes: Vec<u8>| #[trigger]
        call_ensures(encode, (&request,), bytes) && {
            let all = client@.buffer + bytes@;
            &&& final(client)@.buffer == all
            &&& frame@.len() == 4 + all.len()
            &&& frame@.skip(4) == all
            &&& all.len() < 0x1_0000_0000 ==> all.len() == frame@[0] + frame@[1] * 0x100 + frame@[2]
                * 0x1_0000 + frame@[3] * 0x100_0000
            &&& final(client)@.pending.contains_key(request.id)
            &&& final(client)@.pending[request.id] == waiter
            &&& forall|id: usize|
                id != request.id ==> (#[trigger] final(client)@.pending.contains_key(id)
                    <==> client@.pending.contains_key(id)) && (client@.pending.contains_key(id)
                    ==> final(client)@.pending[id] == client@.pending[id])
        } by {
        let bytes = choose|bytes: Vec<u8>| #[trigger]
            call_ensures(encode, (&request,), bytes) && submitted(
                client@,
                request.id,
                waiter,
                bytes@,
                final(client)@,
                frame@,
            );
        let all = client@.buffer + bytes@;
        wire::lemma_length_round_trip(all.len() as int);
        assert(frame@.skip(4) =~= all);
        if all.len() < 0x1_0000_0000 {
            vstd::arithmetic::div_mod::lemma_small_mod(all.len(), 0x1_0000_0000);
        }
        assert(call_ensures(encode, (&request,), bytes));
    }
}

/// An answer goes to the one who waits for its number, who waits no more, and an event
/// is passed on as it is. Everybody else waits on.
pub proof fn lemma_answer_goes_to_its_asker<W>(id: usize, body: Vec<u8>, event: NodeEvent)
    ensures
        forall|client: &mut Client<W>, received: Received<W>| #[trigger]
            call_ensures(Client::<W>::receive, (client, Response::Body { id, body }), received)
                ==> {
                &&& received matches Received::Answer(who, what) && who == client@.pending[id]
                    && what == body
                &&& final(client)@.buffer == client@.buffer
                &&& !final(client)@.pending.contains_key(id)
                &&& forall|other: usize|
                    other != id ==> (#[trigger] final(client)@.pending.contains_key(other)
                        <==> client@.pending.contains_key(other)) && (
                    client@.pending.contains_key(other) ==> final(client)@.pending[other]
                        == client@.pending[other])
            },
        forall|client: &mut Client<W>, received: Received<W>| #[trigger]
            call_ensures(Client::<W>::receive, (client, Response::Event(event)), received) ==> {
                &&& received matches Received::Event(what) && what == event
                &&& final(client)@.buffer == client@.buffer
                &&& final(client)@.pending == client@.pending
            },
        forall|client: Client<W>, expected: bool| #[trigger]
            call_ensures(Client::<W>::expects, (&client, id), expected) ==> (expected
                <==> client@.pending.contains_key(id)),
        forall|client: Client<W>| #[trigger]
            call_ensures(Client::<W>::new, (), client) ==> client@.buffer.len() == 0
                && !client@.pending.contains_key(id),
{
}

/// A question has the value that its reply decodes to. Otherwise the error tells how
/// far it came: not to the pipe, not to an answer, or not to one that decodes.
pub proof fn lemma_question_concludes<T, Decode: FnOnce(Vec<u8>) -> Option<T>>(
    reply: Option<Vec<u8>>,
    bytes: Vec<u8>,
    decode: Decode,
)
    ensures
        forall|value: Result<T, RequestError>| #[trigger]
            call_ensures(conclude::<T, Decode>, (false, reply, decode), value) ==> (
            value matches Err(error) && error is ConnectionAborted),
        forall|value: Result<T, RequestError>| #[trigger]
            call_ensures(conclude::<T, Decode>, (true, None, decode), value) ==> (value matches Err(
                error,
            ) && error is Interrupted),
        forall|value: Result<T, RequestError>| #[trigger]
            call_ensures(conclude::<T, Decode>, (true, Some(bytes), decode), value)
                ==> match value {
                Ok(decoded) => call_ensures(decode, (bytes,), Some(decoded)),
                Err(error) => error is InvalidData && call_ensures(decode, (bytes,), None),
            },
{
}

} // verus!
