//! The server: who may ask what, what becomes of a request, which streams are
//! awaited, and how the routing table follows the chain.

use crate::chain::{NodeEvent, NodeVec, Subscription};
use crate::context::ClientEvent;
use crate::ids::{contains_id, same_id, CallId, NodeId, PathId, Prefix, Topic};
use crate::net;
use crate::wire;
use crate::wire::{RequestHeader, ResponseHeader};
use vstd::prelude::*;

verus! {

/// For how long a client without a valid subscription is kept out, in seconds.
pub const BAN_TIMEOUT: u64 = 180;

/// What a peer is rated with that asks about topics it does not serve.
pub const TRESPASS_RATE: i32 = 100;

/// Seconds since the Unix epoch. A clock that is set before it counts as the end
/// of time.
pub fn now(since_epoch: Option<u64>) -> (seconds: u64)
    ensures
        seconds == match since_epoch {
            Some(seconds) => seconds,
            None => u64::MAX,
        },
{
    match since_epoch {
        Some(seconds) => seconds,
        None => u64::MAX,
    }
}

/// Where somebody is reached: a client of this server, or another node.
#[derive(Clone, Copy, Debug)]
pub enum OnlineLocation {
    Local(PathId),
    Remote(NodeId),
}

/// What a procedure knows of the request it serves.
#[derive(Clone, Copy, Debug)]
pub struct State {
    pub location: OnlineLocation,
    pub id: CallId,
    pub topic: Topic,
    pub prefix: Prefix,
}

/// Why a request ends without the stream being used again.
#[derive(Debug)]
pub enum StreamError<E> {
    /// Whoever asks may not.
    PermissionDenied,
    /// The request makes no sense here.
    InvalidInput,
    /// There is no such procedure.
    Unsupported,
    /// The procedure gave the stream up.
    ConnectionAborted,
    /// The connection failed.
    Other(E),
}

/// A peer that asks about a topic it does not serve: whom to rate, and how.
#[derive(Clone, Copy, Debug)]
pub struct Trespass {
    pub peer: NodeId,
    pub rate: i32,
}

impl Trespass {
    /// What the peer reads of it.
    pub fn message(&self) -> (text: String)
        ensures
            text@ == "not in replication group"@,
    {
        "not in replication group".to_owned()
    }
}

/// Lets a request of a peer in, where the peer is in the group that serves the
/// topic. One that is not is rated.
pub fn server_request(header: &RequestHeader, identity: NodeId, group: &Vec<NodeId>) -> (admitted:
    Result<(State, usize), Trespass>)
    ensures
        match admitted {
            Ok((state, len)) => {
                &&& group@.contains(identity)
                &&& state == State {
                    location: OnlineLocation::Remote(identity),
                    id: header.call_id,
                    topic: header.topic,
                    prefix: header.prefix,
                }
                &&& len == wire::be_number(header.len@)
            },
            Err(trespass) => {
                &&& !group@.contains(identity)
                &&& trespass == Trespass { peer: identity, rate: TRESPASS_RATE }
            },
        },
{
    if !contains_id(group, &identity) {
        return Err(Trespass { peer: identity, rate: TRESPASS_RATE });
    }
    Ok(
        (
            State {
                location: OnlineLocation::Remote(identity),
                id: header.call_id,
                topic: header.topic,
                prefix: header.prefix,
            },
            header.get_len(),
        ),
    )
}

/// What becomes of a stream after a procedure ran on it. `routed` is `None`
/// where there is no such procedure, and holds the stream where the procedure
/// gave it back.
pub open spec fn outcome_of<S, E>(
    routed: Option<Result<Option<S>, E>>,
    missing: StreamError<E>,
) -> Result<S, StreamError<E>> {
    match routed {
        None => Err(missing),
        Some(Err(error)) => Err(StreamError::Other(error)),
        Some(Ok(None)) => Err(StreamError::ConnectionAborted),
        Some(Ok(Some(stream))) => Ok(stream),
    }
}

/// The stream of a peer to use again after a request, where that is possible.
pub fn server_response<S, E>(routed: Option<Result<Option<S>, E>>) -> (outcome: Result<
    S,
    StreamError<E>,
>)
    ensures
        outcome == outcome_of(routed, StreamError::Unsupported),
{
    match routed {
        None => Err(StreamError::Unsupported),
        Some(Err(error)) => Err(StreamError::Other(error)),
        Some(Ok(None)) => Err(StreamError::ConnectionAborted),
        Some(Ok(Some(stream))) => Ok(stream),
    }
}

/// The longest message a client may send, in bytes.
pub const MAX_CLIENT_MESSAGE: usize = 65535;

/// Lets a request of a client in, where it is not too long and this server is in
/// the group that serves the topic.
pub fn client_request<E>(
    header: &RequestHeader,
    path_id: PathId,
    local: NodeId,
    group: &Vec<NodeId>,
) -> (admitted: Result<(State, usize), StreamError<E>>)
    ensures
        match admitted {
            Ok((state, len)) => {
                &&& len == wire::be_number(header.len@)
                &&& len <= MAX_CLIENT_MESSAGE
                &&& group@.contains(local)
                &&& state == State {
                    location: OnlineLocation::Local(path_id),
                    id: header.call_id,
                    topic: header.topic,
                    prefix: header.prefix,
                }
            },
            Err(error) => {
                &&& error == StreamError::<E>::InvalidInput
                &&& wire::be_number(header.len@) > MAX_CLIENT_MESSAGE || !group@.contains(local)
            },
        },
{
    let len: usize = header.get_len();
    if len > MAX_CLIENT_MESSAGE {
        return Err(StreamError::InvalidInput);
    }
    if !contains_id(group, &local) {
        return Err(StreamError::InvalidInput);
    }
    Ok(
        (
            State {
                location: OnlineLocation::Local(path_id),
                id: header.call_id,
                topic: header.topic,
                prefix: header.prefix,
            },
            len,
        ),
    )
}

/// The stream of a client after a request, where the client may go on.
pub fn client_response<S, E>(routed: Option<Result<Option<S>, E>>) -> (outcome: Result<
    S,
    StreamError<E>,
>)
    ensures
        outcome == outcome_of(routed, StreamError::PermissionDenied),
{
    match routed {
        None => Err(StreamError::PermissionDenied),
        Some(Err(error)) => Err(StreamError::Other(error)),
        Some(Ok(None)) => Err(StreamError::ConnectionAborted),
        Some(Ok(Some(stream))) => Ok(stream),
    }
}

/// What a client is sent for an event: a header under the call with which it
/// subscribed, and the message.
pub fn handle_event(event: ClientEvent) -> (out: (ResponseHeader, Vec<u8>))
    ensures
        event matches ClientEvent::Sub(call, data) && {
            &&& out.0.call_id == call
            &&& out.0.len@ == wire::be_bytes(data@.len() as int)
            &&& out.1 == data
        },
{
    match event {
        ClientEvent::Sub(call, data) => (ResponseHeader::new(call, data.len()), data),
    }
}

/// Requests for streams to peers that are not answered yet. `S` is told of one
/// stream.
pub struct PendingStreams<S> {
    entries: Vec<(NodeId, Vec<S>)>,
}

/// The first place from `from` on at which `peer` stands.
spec fn entry_of<S>(entries: Seq<(NodeId, Vec<S>)>, peer: NodeId, from: int) -> Option<int>
    decreases entries.len() - from,
{
    if from >= entries.len() {
        None
    } else if entries[from].0 == peer {
        Some(from)
    } else {
        entry_of(entries, peer, from + 1)
    }
}

proof fn lemma_entry_of<S>(entries: Seq<(NodeId, Vec<S>)>, peer: NodeId, from: int)
    requires
        0 <= from,
    ensures
        match entry_of(entries, peer, from) {
            Some(i) => from <= i < entries.len() && entries[i].0 == peer,
            None => forall|k: int| from <= k < entries.len() ==> (#[trigger] entries[k]).0 != peer,
        },
    decreases entries.len() - from,
{
    if from < entries.len() && entries[from].0 != peer {
        lemma_entry_of(entries, peer, from + 1);
    }
}

/// What the first entry of `peer` holds.
proof fn lemma_entry_found<S>(entries: Seq<(NodeId, Vec<S>)>, peer: NodeId, from: int, at: int)
    requires
        0 <= from <= at < entries.len(),
        entries[at].0 == peer,
        forall|k: int| from <= k < at ==> (#[trigger] entries[k]).0 != peer,
    ensures
        entry_of(entries, peer, from) == Some(at),
    decreases at - from,
{
    if from < at {
        lemma_entry_found(entries, peer, from + 1, at);
    }
}

impl<S> PendingStreams<S> {
    /// Those who wait for a stream to `peer`, the earliest first.
    pub closed spec fn waiting(&self, peer: NodeId) -> Seq<S> {
        match entry_of(self.entries@, peer, 0) {
            Some(i) => self.entries@[i].1@,
            None => Seq::empty(),
        }
    }

    /// Nobody waits.
    pub fn new() -> (pending: Self)
        ensures
            forall|peer: NodeId| #[trigger] pending.waiting(peer) == Seq::<S>::empty(),
    {
        PendingStreams { entries: Vec::new() }
    }

    /// The place of the entry of `peer`.
    fn find(&self, peer: &NodeId) -> (at: Option<usize>)
        ensures
            match at {
                Some(at) => at < self.entries@.len() && entry_of(self.entries@, *peer, 0) == Some(
                    at as int,
                ),
                None => entry_of(self.entries@, *peer, 0) is None,
            },
    {
        let mut i: usize = 0;
        while i < self.entries.len()
            invariant
                i <= self.entries.len(),
                entry_of(self.entries@, *peer, 0) == entry_of(self.entries@, *peer, i as int),
            decreases self.entries.len() - i,
        {
            if same_id(&self.entries[i].0, peer) {
                return Some(i);
            }
            i = i + 1;
        }
        None
    }

    /// Somebody waits for a stream to `peer`, which is being opened.
    pub fn stream_request(&mut self, peer: NodeId, sender: S)
        ensures
            stream_requested(*old(self), peer, sender, *final(self)),
    {
        let ghost before = self.entries@;
        proof {
            lemma_entry_of(before, peer, 0);
        }
        match self.find(&peer) {
            Some(at) => {
                let entry = &mut self.entries[at];
                entry.1.push(sender);
                proof {
                    let after = self.entries@;
                    lemma_same_places(before, after, peer, 0);
                    assert forall|other: NodeId| other != peer implies #[trigger] entry_of(
                        after,
                        other,
                        0,
                    ) == entry_of(before, other, 0) && (entry_of(before, other, 0) matches Some(i)
                        ==> after[i] == before[i]) by {
                        lemma_same_places(before, after, other, 0);
                        lemma_entry_of(before, other, 0);
                    }
                }
            },
            None => {
                let mut senders: Vec<S> = Vec::new();
                senders.push(sender);
                self.entries.push((peer, senders));
                proof {
                    let after = self.entries@;
                    let n = before.len() as int;
                    assert(senders@ =~= Seq::<S>::empty().push(sender));
                    lemma_entry_found(after, peer, 0, n);
                    assert forall|other: NodeId| other != peer implies #[trigger] entry_of(
                        after,
                        other,
                        0,
                    ) == entry_of(before, other, 0) && (entry_of(before, other, 0) matches Some(i)
                        ==> after[i] == before[i]) by {
                        lemma_longer(before, after, other, 0);
                        lemma_entry_of(before, other, 0);
                    }
                }
            },
        }
    }

    /// A stream to `peer` came up, or failed to. Of those who wait for one, the
    /// latest gets it, or is given up together with the stream that failed.
    pub fn outgoing_stream<T>(&mut self, peer: NodeId, stream: Option<T>) -> (handed: Option<
        (S, T),
    >)
        ensures
            stream_came_up(*old(self), peer, stream, *final(self), handed),
    {
        let ghost before = self.entries@;
        proof {
            lemma_entry_of(before, peer, 0);
        }
        match self.find(&peer) {
            Some(at) => {
                let entry = &mut self.entries[at];
                let sender: Option<S> = entry.1.pop();
                proof {
                    let after = self.entries@;
                    lemma_same_places(before, after, peer, 0);
                    assert forall|other: NodeId| other != peer implies #[trigger] entry_of(
                        after,
                        other,
                        0,
                    ) == entry_of(before, other, 0) && (entry_of(before, other, 0) matches Some(i)
                        ==> after[i] == before[i]) by {
                        lemma_same_places(before, after, other, 0);
                        lemma_entry_of(before, other, 0);
                    }
                }
                match (sender, stream) {
                    (Some(sender), Some(stream)) => Some((sender, stream)),
                    _ => None,
                }
            },
            None => None,
        }
    }
}

/// `sender` waits behind those who wait for a stream to `peer`.
pub open spec fn stream_requested<S>(
    before: PendingStreams<S>,
    peer: NodeId,
    sender: S,
    after: PendingStreams<S>,
) -> bool {
    &&& after.waiting(peer) == before.waiting(peer).push(sender)
    &&& forall|other: NodeId|
        other != peer ==> #[trigger] after.waiting(other) == before.waiting(other)
}

/// The latest of those who wait for a stream to `peer` no longer does, and is
/// handed the stream where it came up.
pub open spec fn stream_came_up<S, T>(
    before: PendingStreams<S>,
    peer: NodeId,
    stream: Option<T>,
    after: PendingStreams<S>,
    handed: Option<(S, T)>,
) -> bool {
    &&& if before.waiting(peer).len() == 0 {
        handed is None && after.waiting(peer) == before.waiting(peer)
    } else {
        &&& after.waiting(peer) == before.waiting(peer).drop_last()
        &&& handed == match stream {
            Some(stream) => Some((before.waiting(peer).last(), stream)),
            None => None,
        }
    }
    &&& forall|other: NodeId|
        other != peer ==> #[trigger] after.waiting(other) == before.waiting(other)
}

/// The next stream to a peer goes to the latest request for one, and those who
/// waited before, for whichever peer, wait on as they did.
pub proof fn lemma_latest_first<S, T>(
    before: PendingStreams<S>,
    peer: NodeId,
    sender: S,
    between: PendingStreams<S>,
    stream: T,
    after: PendingStreams<S>,
    handed: Option<(S, T)>,
    anyone: NodeId,
)
    requires
        stream_requested(before, peer, sender, between),
        stream_came_up(between, peer, Some(stream), after, handed),
    ensures
        handed == Some((sender, stream)),
        after.waiting(anyone) == before.waiting(anyone),
{
    assert(before.waiting(peer).push(sender).drop_last() =~= before.waiting(peer));
    if anyone != peer {
        assert(between.waiting(anyone) == before.waiting(anyone));
    }
}

/// Where the same peers stand in the same order, each is found in the same place.
proof fn lemma_same_places<S>(
    before: Seq<(NodeId, Vec<S>)>,
    after: Seq<(NodeId, Vec<S>)>,
    peer: NodeId,
    from: int,
)
    requires
        before.len() == after.len(),
        0 <= from,
        forall|i: int|
            0 <= i < before.len() ==> (#[trigger] before[i]).0 == (#[trigger] after[i]).0,
    ensures
        entry_of(after, peer, from) == entry_of(before, peer, from),
    decreases before.len() - from,
{
    if from < before.len() {
        assert(before[from].0 == after[from].0);
        lemma_same_places(before, after, peer, from + 1);
    }
}

/// An entry of another peer at the end hides none.
proof fn lemma_longer<S>(
    before: Seq<(NodeId, Vec<S>)>,
    after: Seq<(NodeId, Vec<S>)>,
    peer: NodeId,
    from: int,
)
    requires
        after.len() == before.len() + 1,
        0 <= from <= before.len(),
        forall|i: int| 0 <= i < before.len() ==> #[trigger] after[i] == before[i],
        after.last().0 != peer,
    ensures
        entry_of(after, peer, from) == entry_of(before, peer, from),
    decreases before.len() - from,
{
    if from < before.len() {
        assert(after[from] == before[from]);
        lemma_longer(before, after, peer, from + 1);
    } else {
        assert(entry_of(after, peer, from + 1) is None);
    }
}

/// What to do about a node after an event of the chain.
pub enum StakeAction {
    /// Note a vote.
    Vote { source: NodeId, target: NodeId },
    /// Drop the node from the routing table.
    Remove(NodeId),
    /// Put the node into the routing table, reached at an address.
    Insert(NodeId, multiaddr::Multiaddr),
}

/// The transport address of a node leads to the address it has on the chain.
pub open spec fn leads_to(route: multiaddr::Multiaddr, addr: net::SocketAddr) -> bool {
    net::protocols(route) == seq![
        Some(net::host(addr.spec_ip())),
        Some(net::ProtocolModel::Tcp(addr.spec_port())),
    ]
}

/// What to do about a node after an event of the chain.
pub fn stake_event(event: NodeEvent) -> (action: StakeAction)
    ensures
        match event {
            NodeEvent::Voted { source, target } => action == (StakeAction::Vote {
                source,
                target,
            }),
            NodeEvent::Left { node } => action == StakeAction::Remove(node),
            NodeEvent::Join { node, addr } | NodeEvent::AddrChanged { node, addr } => {
                action matches StakeAction::Insert(id, route) && id == node && leads_to(route, addr)
            },
        },
{
    match event {
        NodeEvent::Voted { source, target } => StakeAction::Vote { source, target },
        NodeEvent::Left { node } => StakeAction::Remove(node),
        NodeEvent::Join { node, addr } => StakeAction::Insert(node, net::unpack_addr(addr)),
        NodeEvent::AddrChanged { node, addr } => StakeAction::Insert(node, net::unpack_addr(addr)),
    }
}

/// The routing table at the start: every node of the chain with its address.
pub fn routes(nodes: &NodeVec) -> (routes: Vec<(NodeId, multiaddr::Multiaddr)>)
    ensures
        routes@.len() == nodes@.len(),
        forall|i: int|
            0 <= i < nodes@.len() ==> {
                &&& (#[trigger] routes@[i]).0 == nodes@[i].0
                &&& leads_to(routes@[i].1, nodes@[i].1)
            },
{
    let mut routes: Vec<(NodeId, multiaddr::Multiaddr)> = Vec::new();
    let mut i: usize = 0;
    while i < nodes.len()
        invariant
            i <= nodes.len(),
            routes@.len() == i,
            forall|k: int|
                0 <= k < i ==> {
                    &&& (#[trigger] routes@[k]).0 == nodes@[k].0
                    &&& leads_to(routes@[k].1, nodes@[k].1)
                },
        decreases nodes.len() - i,
    {
        routes.push((nodes[i].0, net::unpack_addr(nodes[i].1)));
        i = i + 1;
    }
    routes
}

/// Until when a client is let in, or kept out. One with a valid subscription is
/// let in for `timeout` seconds from the time of the subscription; any other,
/// and any that cannot be looked up, is kept out.
pub fn auth<IsValid: FnOnce(&Subscription, u64) -> bool>(
    sub: Option<Subscription>,
    now: u64,
    timeout: u64,
    is_valid: IsValid,
) -> (verdict: Result<u64, u64>)
    requires
        sub matches Some(sub) ==> {
            &&& call_requires(is_valid, (&sub, now))
            &&& call_ensures(is_valid, (&sub, now), true) ==> sub.timetsmp + timeout <= u64::MAX
            &&& call_ensures(is_valid, (&sub, now), false) ==> now + BAN_TIMEOUT <= u64::MAX
        },
        sub is None ==> now + BAN_TIMEOUT <= u64::MAX,
    ensures
        match verdict {
            Ok(until) => sub matches Some(sub) && call_ensures(is_valid, (&sub, now), true) && until
                == sub.timetsmp + timeout,
            Err(until) => until == now + BAN_TIMEOUT && (sub matches Some(sub) ==> call_ensures(
                is_valid,
                (&sub, now),
                false,
            )),
        },
{
    match sub {
        Some(sub) => if is_valid(&sub, now) {
            Ok(sub.timetsmp + timeout)
        } else {
            Err(now + BAN_TIMEOUT)
        },
        None => Err(now + BAN_TIMEOUT),
    }
}

/// A client is kept out for three minutes, a trespass costs a peer a hundred, and a
/// clock that is set before the epoch counts as the end of time.
pub proof fn lemma_limits(seconds: u64)
    ensures
        BAN_TIMEOUT == 3 * 60,
        TRESPASS_RATE == 100,
        MAX_CLIENT_MESSAGE == 0xffff,
        forall|time: u64| #[trigger] call_ensures(now, (Some(seconds),), time) ==> time == seconds,
        forall|time: u64| #[trigger]
            call_ensures(now, (None,), time) ==> time == 0xffff_ffff_ffff_ffff,
{
}

/// A peer is let in exactly where it is in the group, and then the procedure knows who
/// asks, under which call, about what and how much follows. One that is not is rated.
pub proof fn lemma_peers_of_the_group_are_let_in(
    header: RequestHeader,
    identity: NodeId,
    group: Vec<NodeId>,
)
    ensures
        forall|admitted: Result<(State, usize), Trespass>| #[trigger]
            call_ensures(server_request, (&header, identity, &group), admitted) ==> {
                &&& admitted is Ok <==> exists|i: int|
                    0 <= i < group@.len() && group@[i] == identity
                &&& match admitted {
                    Ok((state, len)) => {
                        &&& state.location == OnlineLocation::Remote(identity)
                        &&& state.id == header.call_id
                        &&& state.topic == header.topic
                        &&& state.prefix == header.prefix
                        &&& len == header.len@[0] * 0x100_0000 + header.len@[1] * 0x1_0000
                            + header.len@[2] * 0x100 + header.len@[3]
                    },
                    Err(trespass) => trespass.peer == identity && trespass.rate == 100,
                }
            },
        forall|trespass: Trespass, text: String| #[trigger]
            call_ensures(Trespass::message, (&trespass,), text) ==> text@
                == "not in replication group"@,
{
}

/// A client is let in exactly where its message is no longer than 65535 bytes and
/// this server is in the group.
pub proof fn lemma_clients_are_let_in<E>(
    header: RequestHeader,
    path_id: PathId,
    local: NodeId,
    group: Vec<NodeId>,
)
    ensures
        forall|admitted: Result<(State, usize), StreamError<E>>| #[trigger]
            call_ensures(client_request::<E>, (&header, path_id, local, &group), admitted) ==> {
                let announced = header.len@[0] * 0x100_0000 + header.len@[1] * 0x1_0000
                    + header.len@[2] * 0x100 + header.len@[3];
                &&& admitted is Ok <==> announced <= 0xffff && exists|i: int|
                    0 <= i < group@.len() && group@[i] == local
                &&& match admitted {
                    Ok((state, len)) => {
                        &&& state.location == OnlineLocation::Local(path_id)
                        &&& state.id == header.call_id
                        &&& state.topic == header.topic
                        &&& state.prefix == header.prefix
                        &&& len == announced
                    },
                    Err(error) => error is InvalidInput,
                }
            },
{
}

/// A stream that a procedure gave back is used again, and no other. Otherwise the
/// error tells whether there was no such procedure, which a client is told as that it
/// may not ask, whether it kept the stream, or what it ran into.
pub proof fn lemma_streams_are_used_again<S, E>(stream: S, error: E)
    ensures
        forall|outcome: Result<S, StreamError<E>>| #[trigger]
            call_ensures(server_response::<S, E>, (Some(Ok(Some(stream))),), outcome) ==> outcome
                == Ok::<S, StreamError<E>>(stream),
        forall|outcome: Result<S, StreamError<E>>| #[trigger]
            call_ensures(client_response::<S, E>, (Some(Ok(Some(stream))),), outcome) ==> outcome
                == Ok::<S, StreamError<E>>(stream),
        forall|outcome: Result<S, StreamError<E>>| #[trigger]
            call_ensures(server_response::<S, E>, (Some(Ok(None)),), outcome) ==> (
            outcome matches Err(why) && why is ConnectionAborted),
        forall|outcome: Result<S, StreamError<E>>| #[trigger]
            call_ensures(client_response::<S, E>, (Some(Ok(None)),), outcome) ==> (
            outcome matches Err(why) && why is ConnectionAborted),
        forall|outcome: Result<S, StreamError<E>>| #[trigger]
            call_ensures(server_response::<S, E>, (Some(Err(error)),), outcome) ==> (
            outcome matches Err(StreamError::Other(why)) && why == error),
        forall|outcome: Result<S, StreamError<E>>| #[trigger]
            call_ensures(client_response::<S, E>, (Some(Err(error)),), outcome) ==> (
            outcome matches Err(StreamError::Other(why)) && why == error),
        forall|outcome: Result<S, StreamError<E>>| #[trigger]
            call_ensures(server_response::<S, E>, (None,), outcome) ==> (outcome matches Err(why)
                && why is Unsupported),
        forall|outcome: Result<S, StreamError<E>>| #[trigger]
            call_ensures(client_response::<S, E>, (None,), outcome) ==> (outcome matches Err(why)
                && why is PermissionDenied),
{
}

/// An event goes out as it is, under the call it belongs to, behind its length, for
/// every message shorter than 4 GiB.
pub proof fn lemma_event_goes_out(call: CallId, data: Vec<u8>)
    ensures
        forall|out: (ResponseHeader, Vec<u8>)| #[trigger]
            call_ensures(handle_event, (ClientEvent::Sub(call, data),), out) ==> {
                &&& out.0.call_id == call
                &&& out.1 == data
                &&& data@.len() < 0x1_0000_0000 ==> data@.len() == out.0.len@[0] * 0x100_0000
                    + out.0.len@[1] * 0x1_0000 + out.0.len@[2] * 0x100 + out.0.len@[3]
            },
{
    if data@.len() < 0x1_0000_0000 {
        wire::lemma_most_significant_first(data@.len() as int);
    }
}

/// Whoever asks for a stream to a peer waits behind those who do already. When a
/// stream comes up, the latest of them waits no more, and is handed it unless it
/// failed. Those who wait for other peers wait on.
pub proof fn lemma_streams_are_handed_out<S, T>(peer: NodeId, sender: S, stream: Option<T>)
    ensures
        forall|pending: PendingStreams<S>, anyone: NodeId|
            call_ensures(PendingStreams::<S>::new, (), pending) ==> (#[trigger] pending.waiting(
                anyone,
            )).len() == 0,
        forall|pending: &mut PendingStreams<S>, done: ()| #[trigger]
            call_ensures(PendingStreams::<S>::stream_request, (pending, peer, sender), done) ==> {
                let before = pending.waiting(peer);
                let after = final(pending).waiting(peer);
                &&& after.len() == before.len() + 1
                &&& after[before.len() as int] == sender
                &&& forall|k: int| 0 <= k < before.len() ==> #[trigger] after[k] == before[k]
                &&& forall|other: NodeId|
                    other != peer ==> #[trigger] final(pending).waiting(other)
                        == pending.waiting(other)
            },
        forall|pending: &mut PendingStreams<S>, handed: Option<(S, T)>| #[trigger]
            call_ensures(PendingStreams::<S>::outgoing_stream::<T>, (pending, peer, stream), handed)
                ==> {
                let before = pending.waiting(peer);
                let after = final(pending).waiting(peer);
                &&& handed is Some <==> before.len() > 0 && stream is Some
                &&& handed matches Some((to, what)) ==> to == before[before.len() - 1] && Some(what)
                    == stream
                &&& before.len() > 0 ==> after.len() == before.len() - 1
                &&& before.len() == 0 ==> after.len() == 0
                &&& forall|k: int| 0 <= k < after.len() ==> #[trigger] after[k] == before[k]
                &&& forall|other: NodeId|
                    other != peer ==> #[trigger] final(pending).waiting(other)
                        == pending.waiting(other)
            },
{
}

/// The routing table follows the chain: a node that joined or moved is put in at the
/// address it has there, one that left is dropped, and a vote is noted as it was cast.
pub proof fn lemma_routing_follows_the_chain(
    node: NodeId,
    addr: net::SocketAddr,
    source: NodeId,
    target: NodeId,
)
    ensures
        forall|action: StakeAction| #[trigger]
            call_ensures(stake_event, (NodeEvent::Join { node, addr },), action) ==> (
            action matches StakeAction::Insert(id, route) && id == node && net::reaches(
                route,
                addr,
            )),
        forall|action: StakeAction| #[trigger]
            call_ensures(stake_event, (NodeEvent::AddrChanged { node, addr },), action) ==> (
            action matches StakeAction::Insert(id, route) && id == node && net::reaches(
                route,
                addr,
            )),
        forall|action: StakeAction| #[trigger]
            call_ensures(stake_event, (NodeEvent::Left { node },), action) ==> (
            action matches StakeAction::Remove(id) && id == node),
        forall|action: StakeAction| #[trigger]
            call_ensures(stake_event, (NodeEvent::Voted { source, target },), action) ==> (
            action matches StakeAction::Vote { source: by, target: of } && by == source && of
                == target),
{
}

/// At the start every node of the chain is in the routing table, at its own address.
pub proof fn lemma_all_nodes_are_routed(nodes: NodeVec)
    ensures
        forall|table: Vec<(NodeId, multiaddr::Multiaddr)>| #[trigger]
            call_ensures(routes, (&nodes,), table) ==> {
                &&& table@.len() == nodes@.len()
                &&& forall|i: int|
                    0 <= i < nodes@.len() ==> (#[trigger] table@[i]).0 == nodes@[i].0
                        && net::reaches(table@[i].1, nodes@[i].1)
            },
{
    assert forall|table: Vec<(NodeId, multiaddr::Multiaddr)>| #[trigger]
        call_ensures(routes, (&nodes,), table) implies table@.len() == nodes@.len() && forall|
        i: int,
    |
        0 <= i < nodes@.len() ==> (#[trigger] table@[i]).0 == nodes@[i].0 && net::reaches(
            table@[i].1,
            nodes@[i].1,
        ) by {
        assert forall|i: int| 0 <= i < nodes@.len() implies (#[trigger] table@[i]).0 == nodes@[i].0
            && net::reaches(table@[i].1, nodes@[i].1) by {
            assert(leads_to(table@[i].1, nodes@[i].1));
        }
    }
}

/// A client with a valid subscription is let in, for `timeout` seconds from the time of
/// that. Any other is kept out, for three minutes from now.
pub proof fn lemma_subscribers_are_let_in<IsValid: FnOnce(&Subscription, u64) -> bool>(
    sub: Subscription,
    now: u64,
    timeout: u64,
    is_valid: IsValid,
    valid: bool,
)
    requires
        forall|answer: bool| #[trigger]
            call_ensures(is_valid, (&sub, now), answer) ==> answer == valid,
    ensures
        forall|verdict: Result<u64, u64>| #[trigger]
            call_ensures(auth::<IsValid>, (Some(sub), now, timeout, is_valid), verdict)
                ==> match verdict {
                Ok(until) => valid && until == sub.timetsmp + timeout,
                Err(until) => !valid && until == now + 3 * 60,
            },
        forall|verdict: Result<u64, u64>| #[trigger]
            call_ensures(auth::<IsValid>, (None, now, timeout, is_valid), verdict) ==> (
            verdict matches Err(until) && until == now + 3 * 60),
{
}

} // verus!
