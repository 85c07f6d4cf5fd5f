//! What the tasks of a server share: who listens to which chat and profile,
//! which topics are being recovered, and streams to peers that wait to be used
//! again.
//!
//! Streams, clients and the database stay with the caller. A stream is known
//! here by a number, and a point in time by the nanoseconds since some start.

use crate::errors::ChatError;
use crate::ids::{same_id, CallId, ChatName, Identity, NodeId, PathId, Prefix, Topic};
use crate::wire;
use crate::wire::RequestHeader;
use std::collections::HashMap;
use vstd::prelude::*;

verus! {

broadcast use vstd::std_specs::hash::group_hash_axioms;

/// A topic as a key of a collection: whether it is a chat, and its bytes.
pub type TopicKey = (bool, [u8; 32]);

/// Topics.
pub type TopicSet = dashmap::DashSet<TopicKey>;

/// Who listens to each chat: the path of the client, and the call under which it
/// subscribed.
pub type ChatSubs = dashmap::DashMap<ChatName, HashMap<PathId, CallId>>;

/// Who listens to each profile.
pub type ProfileSubs = dashmap::DashMap<Identity, (PathId, CallId)>;

/// Streams to one peer that wait to be used again, each with the time it was put
/// there. There is room for ten.
pub type Slot = arrayvec::ArrayVec<(u64, u64), 10>;

/// Streams that wait to be used again, by peer.
pub type Recycled = dashmap::DashMap<NodeId, Slot>;

#[verifier::external_type_specification]
#[verifier::external_body]
#[verifier::reject_recursive_types(K)]
#[verifier::reject_recursive_types(V)]
#[verifier::reject_recursive_types(S)]
pub struct ExDashMap<K, V, S>(dashmap::DashMap<K, V, S>);

#[verifier::external_type_specification]
#[verifier::external_body]
#[verifier::reject_recursive_types(K)]
#[verifier::reject_recursive_types(S)]
pub struct ExDashSet<K, S>(dashmap::DashSet<K, S>);

#[verifier::external_type_specification]
#[verifier::external_body]
#[verifier::reject_recursive_types(T)]
pub struct ExArrayVec<T, const CAP: usize>(arrayvec::ArrayVec<T, CAP>);

/// What a set of topics holds.
pub uninterp spec fn topics_of(set: TopicSet) -> Set<TopicKey>;

/// Who listens to each chat.
pub uninterp spec fn chat_subs_of(map: ChatSubs) -> Map<ChatName, Map<PathId, CallId>>;

/// Who listens to each profile.
pub uninterp spec fn profile_subs_of(map: ProfileSubs) -> Map<Identity, (PathId, CallId)>;

/// What a slot holds, the oldest first.
pub uninterp spec fn slot_of(slot: Slot) -> Seq<(u64, u64)>;

/// What waits to be used again, by peer.
pub uninterp spec fn recycled_of(map: Recycled) -> Map<NodeId, Seq<(u64, u64)>>;

/// Calls `dashmap::DashSet::new`: an empty set.
#[verifier::external_body]
fn topic_set_new() -> (set: TopicSet)
    ensures
        topics_of(set) == Set::<TopicKey>::empty(),
{
    dashmap::DashSet::new()
}

/// Calls `dashmap::DashSet::insert`: the topic joins the set. Tells whether it
/// was not there before.
#[verifier::external_body]
fn topic_set_insert(set: &mut TopicSet, key: TopicKey) -> (new: bool)
    ensures
        topics_of(*final(set)) == topics_of(*old(set)).insert(key),
        new == !topics_of(*old(set)).contains(key),
{
    set.insert(key)
}

/// Calls `dashmap::DashSet::remove`: the topic leaves the set. Gives it back
/// where it was there.
#[verifier::external_body]
fn topic_set_remove(set: &mut TopicSet, key: &TopicKey) -> (removed: Option<TopicKey>)
    ensures
        topics_of(*final(set)) == topics_of(*old(set)).remove(*key),
        removed == if topics_of(*old(set)).contains(*key) {
            Some(*key)
        } else {
            None
        },
{
    set.remove(key)
}

/// Calls `dashmap::DashMap::new`: nobody listens.
#[verifier::external_body]
fn chat_subs_new() -> (map: ChatSubs)
    ensures
        chat_subs_of(map).dom() == Set::<ChatName>::empty(),
{
    dashmap::DashMap::new()
}

/// Calls `dashmap::DashMap::remove`: takes out those who listen to a chat.
#[verifier::external_body]
fn chat_subs_remove(map: &mut ChatSubs, chat: &ChatName) -> (removed: Option<
    HashMap<PathId, CallId>,
>)
    ensures
        chat_subs_of(*final(map)) == chat_subs_of(*old(map)).remove(*chat),
        match removed {
            Some(subs) => chat_subs_of(*old(map)).contains_key(*chat) && subs@ == chat_subs_of(
                *old(map),
            )[*chat],
            None => !chat_subs_of(*old(map)).contains_key(*chat),
        },
{
    map.remove(chat).map(|entry| entry.1)
}

/// Calls `dashmap::DashMap::insert`: puts in those who listen to a chat.
#[verifier::external_body]
fn chat_subs_insert(map: &mut ChatSubs, chat: ChatName, subs: HashMap<PathId, CallId>)
    ensures
        chat_subs_of(*final(map)) == chat_subs_of(*old(map)).insert(chat, subs@),
{
    map.insert(chat, subs);
}

/// Calls `dashmap::DashMap::new`: nobody listens.
#[verifier::external_body]
fn profile_subs_new() -> (map: ProfileSubs)
    ensures
        profile_subs_of(map).dom() == Set::<Identity>::empty(),
{
    dashmap::DashMap::new()
}

/// Calls `dashmap::DashMap::get` and copies the value: who listens to a profile.
#[verifier::external_body]
fn profile_subs_get(map: &ProfileSubs, who: &Identity) -> (sub: Option<(PathId, CallId)>)
    ensures
        sub == if profile_subs_of(*map).contains_key(*who) {
            Some(profile_subs_of(*map)[*who])
        } else {
            None
        },
{
    map.get(who).map(|entry| *entry)
}

/// Calls `dashmap::DashMap::remove`: nobody listens to the profile any more.
#[verifier::external_body]
fn profile_subs_remove(map: &mut ProfileSubs, who: &Identity)
    ensures
        profile_subs_of(*final(map)) == profile_subs_of(*old(map)).remove(*who),
{
    map.remove(who);
}

/// Calls `arrayvec::ArrayVec::new`: an empty slot.
#[verifier::external_body]
fn slot_new() -> (slot: Slot)
    ensures
        slot_of(slot) == Seq::<(u64, u64)>::empty(),
{
    arrayvec::ArrayVec::new()
}

/// Calls `arrayvec::ArrayVec::try_push`: the stream goes behind those there are,
/// where there are fewer than ten. Tells whether it did.
#[verifier::external_body]
fn slot_try_push(slot: &mut Slot, item: (u64, u64)) -> (pushed: bool)
    ensures
        pushed == (slot_of(*old(slot)).len() < 10),
        slot_of(*final(slot)) == if pushed {
            slot_of(*old(slot)).push(item)
        } else {
            slot_of(*old(slot))
        },
{
    slot.try_push(item).is_ok()
}

/// Calls `arrayvec::ArrayVec::retain`: keeps the streams that are fresh at `now`,
/// in order.
#[verifier::external_body]
fn slot_retain_fresh(slot: &mut Slot, now: u64)
    ensures
        slot_of(*final(slot)) == kept_fresh(slot_of(*old(slot)), now),
{
    slot.retain(|item| is_fresh(item.1, now))
}

/// Calls `arrayvec::ArrayVec::pop`: takes the last stream, where there is any.
#[verifier::external_body]
fn slot_pop(slot: &mut Slot) -> (item: Option<(u64, u64)>)
    ensures
        if slot_of(*old(slot)).len() == 0 {
            item is None && slot_of(*final(slot)) == slot_of(*old(slot))
        } else {
            item == Some(slot_of(*old(slot)).last()) && slot_of(*final(slot)) == slot_of(
                *old(slot),
            ).drop_last()
        },
{
    slot.pop()
}

/// Calls `dashmap::DashMap::new`: nothing waits.
#[verifier::external_body]
fn recycled_new() -> (map: Recycled)
    ensures
        recycled_of(map).dom() == Set::<NodeId>::empty(),
{
    dashmap::DashMap::new()
}

/// Calls `dashmap::DashMap::remove`: takes out the slot of a peer.
#[verifier::external_body]
fn recycled_remove(map: &mut Recycled, peer: &NodeId) -> (removed: Option<Slot>)
    ensures
        recycled_of(*final(map)) == recycled_of(*old(map)).remove(*peer),
        match removed {
            Some(slot) => recycled_of(*old(map)).contains_key(*peer) && slot_of(slot)
                == recycled_of(*old(map))[*peer],
            None => !recycled_of(*old(map)).contains_key(*peer),
        },
{
    map.remove(peer).map(|entry| entry.1)
}

/// Calls `dashmap::DashMap::insert`: puts in the slot of a peer.
#[verifier::external_body]
fn recycled_insert(map: &mut Recycled, peer: NodeId, slot: Slot)
    ensures
        recycled_of(*final(map)) == recycled_of(*old(map)).insert(peer, slot_of(slot)),
{
    map.insert(peer, slot);
}

/// For how long a stream may wait to be used again, in nanoseconds: two seconds
/// less than the five after which the peer gives it up.
pub const FRESH_FOR: u64 = 3_000_000_000;

/// Whether a stream that was put away at `since` may still be used at `now`.
pub open spec fn fresh(since: u64, now: u64) -> bool {
    now - since < FRESH_FOR
}

/// Whether a stream that was put away at `since` may still be used at `now`.
pub fn is_fresh(since: u64, now: u64) -> (yes: bool)
    ensures
        yes == fresh(since, now),
{
    since >= now || now - since < FRESH_FOR
}

/// The streams that are fresh at `now`, in order.
pub open spec fn kept_fresh(items: Seq<(u64, u64)>, now: u64) -> Seq<(u64, u64)>
    decreases items.len(),
{
    if items.len() == 0 {
        Seq::empty()
    } else {
        let before = kept_fresh(items.drop_last(), now);
        if fresh(items.last().1, now) {
            before.push(items.last())
        } else {
            before
        }
    }
}

/// Streams to peers that wait to be used again.
pub struct StreamCache {
    recycled: Recycled,
}

impl View for StreamCache {
    type V = Map<NodeId, Seq<(u64, u64)>>;

    closed spec fn view(&self) -> Map<NodeId, Seq<(u64, u64)>> {
        recycled_of(self.recycled)
    }
}

/// What waits for `peer`.
pub open spec fn waiting_for(
    cache: Map<NodeId, Seq<(u64, u64)>>,
    peer: NodeId,
) -> Seq<(u64, u64)> {
    if cache.contains_key(peer) {
        cache[peer]
    } else {
        Seq::empty()
    }
}

/// The cache after a stream to `peer` was put away at `now`. Where ten wait
/// already it is given up.
pub open spec fn put_away(
    cache: Map<NodeId, Seq<(u64, u64)>>,
    peer: NodeId,
    stream: u64,
    now: u64,
) -> Map<NodeId, Seq<(u64, u64)>> {
    let slot = waiting_for(cache, peer);
    cache.insert(
        peer,
        if slot.len() < 10 {
            slot.push((stream, now))
        } else {
            slot
        },
    )
}

/// The stream that is taken for `peer` at `now`: the one put away last, of those
/// that are fresh.
pub open spec fn taken_from(
    cache: Map<NodeId, Seq<(u64, u64)>>,
    peer: NodeId,
    now: u64,
) -> Option<u64> {
    let kept = kept_fresh(waiting_for(cache, peer), now);
    if kept.len() == 0 {
        None
    } else {
        Some(kept.last().0)
    }
}

/// The cache after a stream was taken for `peer` at `now`. Streams that are no
/// longer fresh are given up.
pub open spec fn after_taking(
    cache: Map<NodeId, Seq<(u64, u64)>>,
    peer: NodeId,
    now: u64,
) -> Map<NodeId, Seq<(u64, u64)>> {
    if cache.contains_key(peer) {
        let kept = kept_fresh(cache[peer], now);
        cache.insert(
            peer,
            if kept.len() == 0 {
                kept
            } else {
                kept.drop_last()
            },
        )
    } else {
        cache
    }
}

/// No more than ten streams wait for any peer.
pub open spec fn within_bounds(cache: Map<NodeId, Seq<(u64, u64)>>) -> bool {
    forall|peer: NodeId| #[trigger] cache.contains_key(peer) ==> cache[peer].len() <= 10
}

proof fn lemma_kept_fresh(items: Seq<(u64, u64)>, now: u64)
    ensures
        kept_fresh(items, now).len() <= items.len(),
        forall|i: int|
            0 <= i < kept_fresh(items, now).len() ==> {
                &&& items.contains(#[trigger] kept_fresh(items, now)[i])
                &&& fresh(kept_fresh(items, now)[i].1, now)
            },
    decreases items.len(),
{
    if items.len() > 0 {
        let shorter = items.drop_last();
        let now_kept = kept_fresh(items, now);
        lemma_kept_fresh(shorter, now);
        assert forall|i: int| 0 <= i < now_kept.len() implies items.contains(
            #[trigger] now_kept[i],
        ) && fresh(now_kept[i].1, now) by {
            if i < kept_fresh(shorter, now).len() {
                assert(shorter.contains(kept_fresh(shorter, now)[i]));
                let k = choose|k: int|
                    0 <= k < shorter.len() && shorter[k] == kept_fresh(shorter, now)[i];
                assert(items[k] == now_kept[i]);
            } else {
                assert(items[items.len() - 1] == now_kept[i]);
            }
        }
    }
}

impl StreamCache {
    /// Puts a stream away, for the peer it leads to. Tells whether there was room
    /// for it.
    pub fn recycle(&mut self, peer: NodeId, stream: u64, now: u64) -> (kept: bool)
        ensures
            kept == (waiting_for(old(self)@, peer).len() < 10),
            final(self)@ == put_away(old(self)@, peer, stream, now),
            within_bounds(old(self)@) ==> within_bounds(final(self)@),
    {
        let ghost before = self@;
        let mut slot: Slot = match recycled_remove(&mut self.recycled, &peer) {
            Some(slot) => slot,
            None => slot_new(),
        };
        assert(slot_of(slot) == waiting_for(before, peer));
        let kept: bool = slot_try_push(&mut slot, (stream, now));
        recycled_insert(&mut self.recycled, peer, slot);
        assert(self@ =~= put_away(before, peer, stream, now));
        kept
    }

    /// Takes a stream to `peer` that is still fresh, where there is any.
    pub fn reuse(&mut self, peer: NodeId, now: u64) -> (stream: Option<u64>)
        ensures
            stream == taken_from(old(self)@, peer, now),
            final(self)@ == after_taking(old(self)@, peer, now),
            within_bounds(old(self)@) ==> within_bounds(final(self)@),
    {
        let ghost before = self@;
        match recycled_remove(&mut self.recycled, &peer) {
            Some(mut slot) => {
                proof {
                    lemma_kept_fresh(before[peer], now);
                }
                slot_retain_fresh(&mut slot, now);
                let item: Option<(u64, u64)> = slot_pop(&mut slot);
                recycled_insert(&mut self.recycled, peer, slot);
                assert(self@ =~= after_taking(before, peer, now));
                match item {
                    Some((stream, _)) => Some(stream),
                    None => None,
                }
            },
            None => {
                assert(self@ =~= before);
                None
            },
        }
    }
}

impl Default for StreamCache {
    /// A cache in which nothing waits.
    fn default() -> (cache: StreamCache)
        ensures
            cache@.dom() == Set::<NodeId>::empty(),
            within_bounds(cache@),
    {
        StreamCache { recycled: recycled_new() }
    }
}

/// A stream that is handed out for a peer was put away for that peer, and is
/// still fresh.
pub proof fn lemma_reused_is_fresh(
    cache: Map<NodeId, Seq<(u64, u64)>>,
    peer: NodeId,
    now: u64,
)
    ensures
        taken_from(cache, peer, now) matches Some(stream) ==> exists|item: (u64, u64)| #[trigger]
            waiting_for(cache, peer).contains(item) && item.0 == stream && fresh(item.1, now),
{
    let slot = waiting_for(cache, peer);
    let kept = kept_fresh(slot, now);
    lemma_kept_fresh(slot, now);
    if kept.len() > 0 {
        let last = kept_fresh(slot, now)[kept.len() - 1];
        assert(slot.contains(last) && fresh(last.1, now));
    }
}

/// A stream that was just put away is the next to be used for its peer, unless
/// it was given up because ten waited, or waits too long.
pub proof fn lemma_recycled_comes_back(
    cache: Map<NodeId, Seq<(u64, u64)>>,
    peer: NodeId,
    stream: u64,
    since: u64,
    now: u64,
)
    requires
        waiting_for(cache, peer).len() < 10,
        fresh(since, now),
    ensures
        taken_from(put_away(cache, peer, stream, since), peer, now) == Some(stream),
{
    let slot = waiting_for(cache, peer);
    assert(slot.push((stream, since)).drop_last() =~= slot);
}

/// Whatever is put away or taken for one peer leaves what waits for the others
/// alone.
pub proof fn lemma_peers_kept_apart(
    cache: Map<NodeId, Seq<(u64, u64)>>,
    peer: NodeId,
    other: NodeId,
    stream: u64,
    now: u64,
)
    requires
        peer != other,
    ensures
        waiting_for(put_away(cache, peer, stream, now), other) == waiting_for(cache, other),
        waiting_for(after_taking(cache, peer, now), other) == waiting_for(cache, other),
{
}

/// The key of a topic.
pub open spec fn key_of(topic: Topic) -> TopicKey {
    match topic {
        Topic::Profile(identity) => (false, identity),
        Topic::Chat(name) => (true, name),
    }
}

fn to_key(topic: Topic) -> (key: TopicKey)
    ensures
        key == key_of(topic),
{
    match topic {
        Topic::Profile(identity) => (false, identity),
        Topic::Chat(name) => (true, name),
    }
}

/// Something a client is told without having asked: a message under the call
/// with which it subscribed.
#[derive(Debug)]
pub enum ClientEvent {
    Sub(CallId, Vec<u8>),
}

/// What became of an event that was handed to a client.
#[derive(Clone, Copy, Debug, PartialEq, Eq, Structural)]
pub enum Delivery {
    /// There is no client at that path.
    NoClient,
    Sent,
    /// The client does not keep up, or is gone.
    Refused,
}

/// `events` tells each listener `content` once, under the call with which it
/// subscribed.
pub open spec fn tells(
    events: Seq<(PathId, ClientEvent)>,
    listeners: Map<PathId, CallId>,
    content: Seq<u8>,
) -> bool {
    &&& forall|i: int|
        0 <= i < events.len() ==> {
            let (path, event) = #[trigger] events[i];
            &&& listeners.contains_key(path)
            &&& event matches ClientEvent::Sub(call, bytes) && call == listeners[path] && bytes@
                == content
        }
    &&& forall|i: int, j: int|
        0 <= i < events.len() && 0 <= j < events.len() && i != j ==> (#[trigger] events[i]).0 != (
        #[trigger] events[j]).0
    &&& forall|path: PathId| #[trigger] listeners.contains_key(path) ==> addressed(events, path)
}

/// Some event is for the client at `path`.
pub open spec fn addressed(events: Seq<(PathId, ClientEvent)>, path: PathId) -> bool {
    exists|i: int| 0 <= i < events.len() && (#[trigger] events[i]).0 == path
}

/// An event for the client at `path` went there.
pub open spec fn delivered_to(
    events: Seq<(PathId, ClientEvent)>,
    outcomes: Seq<Delivery>,
    path: PathId,
) -> bool {
    exists|i: int|
        0 <= i < events.len() && (#[trigger] events[i]).0 == path && outcomes[i] is Sent
}

/// Each listener was told `content`, once. Those to whom it went stay, the others
/// do not.
pub open spec fn told<Send: FnOnce(Vec<(PathId, ClientEvent)>) -> Vec<Delivery>>(
    send: Send,
    before: Map<PathId, CallId>,
    content: Seq<u8>,
    after: Map<PathId, CallId>,
) -> bool {
    exists|events: Vec<(PathId, ClientEvent)>, outcomes: Vec<Delivery>| #[trigger]
        call_ensures(send, (events,), outcomes) && {
            &&& tells(events@, before, content)
            &&& outcomes@.len() == events@.len()
            &&& forall|path: PathId| #[trigger]
                after.contains_key(path) <==> delivered_to(events@, outcomes@, path)
            &&& forall|path: PathId| #[trigger]
                after.contains_key(path) ==> after[path] == before[path]
        }
}

/// What the tasks of a server share.
pub struct OwnedContext {
    /// Topics that nobody could recover.
    pub not_found: TopicSet,
    pub chat_subs: ChatSubs,
    pub profile_subs: ProfileSubs,
    /// Topics that are being recovered.
    pub ongoing_recovery: TopicSet,
    pub stream_cache: StreamCache,
    pub local_peer_id: NodeId,
}

/// Mathematical contents of an `OwnedContext`.
#[verifier::ext_equal]
pub struct ContextModel {
    pub not_found: Set<TopicKey>,
    pub chat_subs: Map<ChatName, Map<PathId, CallId>>,
    pub profile_subs: Map<Identity, (PathId, CallId)>,
    pub recovering: Set<TopicKey>,
    pub streams: Map<NodeId, Seq<(u64, u64)>>,
    pub local: NodeId,
}

impl View for OwnedContext {
    type V = ContextModel;

    open spec fn view(&self) -> ContextModel {
        ContextModel {
            not_found: topics_of(self.not_found),
            chat_subs: chat_subs_of(self.chat_subs),
            profile_subs: profile_subs_of(self.profile_subs),
            recovering: topics_of(self.ongoing_recovery),
            streams: self.stream_cache@,
            local: self.local_peer_id,
        }
    }
}

/// What to tell each of `listeners`.
fn to_tell(listeners: &HashMap<PathId, CallId>, content: &Vec<u8>) -> (events: Vec<
    (PathId, ClientEvent),
>)
    ensures
        tells(events@, listeners@, content@),
{
    let mut events: Vec<(PathId, ClientEvent)> = Vec::new();
    let ghost seq = vstd::std_specs::iter::IteratorSpec::remaining(&listeners.iter());
    for (path, call) in it: listeners.iter()
        invariant
            it.seq() == seq,
            seq.no_duplicates(),
            events@.len() == it.index(),
            forall|j: int|
                0 <= j < events@.len() ==> {
                    let (path, event) = #[trigger] events@[j];
                    &&& path == *seq[j].0
                    &&& listeners@.contains_key(path)
                    &&& listeners@[path] == *seq[j].1
                    &&& event matches ClientEvent::Sub(call, bytes) && call == listeners@[path]
                        && bytes@ == content@
                },
    {
        let ghost at = it.index() as int;
        proof {
            assert(it.seq()[at] == (path, call));
            assert(listeners@.contains_key(*it.seq()[at].0));
            assert(listeners@[*it.seq()[at].0] == *it.seq()[at].1);
        }
        let mut bytes: Vec<u8> = Vec::new();
        wire::extend(&mut bytes, content);
        assert(bytes@ =~= content@);
        events.push((*path, ClientEvent::Sub(*call, bytes)));
    }
    proof {
        assert forall|i: int, j: int|
            0 <= i < events@.len() && 0 <= j < events@.len() && i != j implies (
        #[trigger] events@[i]).0 != (#[trigger] events@[j]).0 by {
            if events@[i].0 == events@[j].0 {
                assert(seq[i] == seq[j]);
            }
        }
        assert forall|path: PathId| #[trigger] listeners@.contains_key(path) implies addressed(
            events@,
            path,
        ) by {
            let pair = (path, listeners@[path]);
            assert(listeners@.kv_pairs().contains(pair));
            assert(seq.unref().to_set().contains(pair));
            let i = choose|i: int| 0 <= i < seq.unref().len() && seq.unref()[i] == pair;
            assert(events@[i].0 == path);
        }
    }
    events
}

/// `ids` without `id`.
pub open spec fn without(ids: Seq<NodeId>, id: NodeId) -> Seq<NodeId>
    decreases ids.len(),
{
    if ids.len() == 0 {
        Seq::empty()
    } else if ids.last() == id {
        without(ids.drop_last(), id)
    } else {
        without(ids.drop_last(), id).push(ids.last())
    }
}

/// The members of a group other than `id`. Where a full group of `capacity` is
/// left, `id` is not one of its members and gets nothing.
pub open spec fn others_of(closest: Seq<NodeId>, capacity: nat, id: NodeId) -> Option<Seq<NodeId>> {
    let others = without(closest, id);
    if others.len() == capacity {
        None
    } else {
        Some(others)
    }
}

/// `header` announces a message of `len` bytes about `topic` to the procedure
/// `prefix`, alone on its stream.
pub open spec fn is_header(
    header: RequestHeader,
    prefix: Prefix,
    topic: Topic,
    len: usize,
) -> bool {
    &&& header.prefix == prefix
    &&& header.call_id@ == seq![0u8, 0u8, 0u8, 0u8]
    &&& header.topic == topic
    &&& header.len@ == wire::be_bytes(len as int)
}

/// What came back for a request to a peer.
#[derive(Debug)]
pub enum Reply<X> {
    Body(Vec<u8>),
    /// The connection failed.
    Failed(X),
    /// The peer took too long.
    TimedOut,
}

/// What to do about a reply that may not be there yet.
#[derive(Debug)]
pub enum ReplyStep<X> {
    /// That is the reply.
    Done(Reply<X>),
    /// Wait for it, for no longer than this many nanoseconds.
    Wait(u128),
}

/// Whether a request that was sent at `sent` is given up at `now`: after
/// `rpc_timeout` milliseconds of delay.
pub open spec fn given_up(sent: u64, now: u64, rpc_timeout: u64) -> bool {
    now - sent >= rpc_timeout * 1_000_000
}

/// What to do at `now` about a request that was sent at `sent`. A reply that is
/// there counts. One that is not is waited for, and given up after `rpc_timeout`
/// milliseconds.
pub fn await_reply<X>(reply: Option<Reply<X>>, sent: u64, now: u64, rpc_timeout: u64) -> (step:
    ReplyStep<X>)
    ensures
        match reply {
            Some(reply) => step == ReplyStep::Done(reply),
            None => if given_up(sent, now, rpc_timeout) {
                step == ReplyStep::Done(Reply::<X>::TimedOut)
            } else {
                step matches ReplyStep::Wait(left) && left == sent + rpc_timeout * 1_000_000 - now
            },
        },
{
    match reply {
        Some(reply) => ReplyStep::Done(reply),
        None => {
            let until: u128 = sent as u128 + rpc_timeout as u128 * 1_000_000;
            if now as u128 >= until {
                ReplyStep::Done(Reply::TimedOut)
            } else {
                ReplyStep::Wait(until - now as u128)
            }
        },
    }
}

/// `value` is what a request has for a result when `reply` came back. A reply
/// that does not decode is an error, as are a failed connection and a timeout.
pub open spec fn reply_means<R, X, Decode: FnOnce(Vec<u8>) -> Option<R>>(
    reply: Reply<X>,
    decode: Decode,
    value: Result<R, ChatError<X>>,
) -> bool {
    match reply {
        Reply::Body(bytes) => match value {
            Ok(decoded) => call_ensures(decode, (bytes,), Some(decoded)),
            Err(error) => error == ChatError::<X>::InvalidResponse && call_ensures(
                decode,
                (bytes,),
                None,
            ),
        },
        Reply::Failed(error) => value == Err::<R, ChatError<X>>(ChatError::Other(error)),
        Reply::TimedOut => value == Err::<R, ChatError<X>>(ChatError::Timeout),
    }
}

/// A peer that has not replied after `rpc_timeout` milliseconds makes its request
/// fail with a timeout, and not before. Until then it is waited for.
pub proof fn lemma_request_dropped_after_timeout<R, X, Decode: FnOnce(Vec<u8>) -> Option<R>>(
    sent: u64,
    now: u64,
    rpc_timeout: u64,
    step: ReplyStep<X>,
    decode: Decode,
    value: Result<R, ChatError<X>>,
)
    requires
        call_ensures(await_reply::<X>, (None, sent, now, rpc_timeout), step),
        step matches ReplyStep::Done(reply) ==> reply_means(reply, decode, value),
    ensures
        step is Done <==> given_up(sent, now, rpc_timeout),
        step is Done ==> value == Err::<R, ChatError<X>>(ChatError::Timeout),
{
}

/// What comes of the replies of several peers: what every one of them said, in
/// order, or the first error.
pub open spec fn concluded<R, X>(
    replies: Seq<(NodeId, Result<R, ChatError<X>>)>,
    all: Result<Seq<(NodeId, R)>, ChatError<X>>,
) -> bool {
    match all {
        Ok(values) => {
            &&& values.len() == replies.len()
            &&& forall|i: int|
                0 <= i < replies.len() ==> (#[trigger] replies[i]) == (
                    values[i].0,
                    Ok::<R, ChatError<X>>(values[i].1),
                )
        },
        Err(error) => exists|i: int|
            {
                &&& 0 <= i < replies.len()
                &&& (#[trigger] replies[i]).1 == Err::<R, ChatError<X>>(error)
                &&& forall|k: int| 0 <= k < i ==> (#[trigger] replies[k]).1 is Ok
            },
    }
}

/// What comes of the replies of several peers: what every one of them said, in
/// order, or the first error.
pub fn conclude_replies<R, X>(replies: Vec<(NodeId, Result<R, ChatError<X>>)>) -> (all: Result<
    Vec<(NodeId, R)>,
    ChatError<X>,
>)
    ensures
        match all {
            Ok(values) => concluded(replies@, Ok(values@)),
            Err(error) => concluded(replies@, Err(error)),
        },
{
    let ghost given = replies@;
    let mut values: Vec<(NodeId, R)> = Vec::new();
    for entry in it: replies
        invariant
            it.seq() == given,
            values@.len() == it.index(),
            forall|i: int|
                0 <= i < values@.len() ==> (#[trigger] given[i]) == (
                    values@[i].0,
                    Ok::<R, ChatError<X>>(values@[i].1),
                ),
    {
        let ghost at = it.index() as int;
        assert(given[at] == entry);
        match entry {
            (peer, Ok(value)) => {
                values.push((peer, value));
            },
            (_, Err(error)) => {
                assert(given[at].1 == Err::<R, ChatError<X>>(error));
                return Err(error);
            },
        }
    }
    Ok(values)
}

/// A request to several peers succeeds exactly where every one of them gave what
/// was asked for. It then has what each said, and otherwise an error that one of
/// them ran into.
pub proof fn lemma_all_peers_or_none<R, X>(
    replies: Seq<(NodeId, Result<R, ChatError<X>>)>,
    all: Result<Seq<(NodeId, R)>, ChatError<X>>,
)
    requires
        concluded(replies, all),
    ensures
        all is Ok <==> forall|i: int| 0 <= i < replies.len() ==> (#[trigger] replies[i]).1 is Ok,
        all matches Ok(values) ==> values.len() == replies.len() && forall|i: int|
            0 <= i < values.len() ==> (#[trigger] values[i]).0 == replies[i].0 && replies[i].1 == Ok::<
                R,
                ChatError<X>,
            >(values[i].1),
        all matches Err(error) ==> exists|i: int|
            0 <= i < replies.len() && (#[trigger] replies[i]).1 == Err::<R, ChatError<X>>(error),
{
    if all is Ok {
        let values = all->Ok_0;
        assert forall|i: int| 0 <= i < values.len() implies (#[trigger] values[i]).0
            == replies[i].0 && replies[i].1 == Ok::<R, ChatError<X>>(values[i].1) by {
            assert(replies[i] == replies[i]);
        }
    }
}

/// The cache after several streams were put away in turn.
pub open spec fn all_put_away(
    cache: Map<NodeId, Seq<(u64, u64)>>,
    streams: Seq<(NodeId, u64)>,
    now: u64,
) -> Map<NodeId, Seq<(u64, u64)>>
    decreases streams.len(),
{
    if streams.len() == 0 {
        cache
    } else {
        let (peer, stream) = streams.last();
        put_away(all_put_away(cache, streams.drop_last(), now), peer, stream, now)
    }
}

impl OwnedContext {
    /// A context in which nobody listens and nothing waits.
    pub fn new(local_peer_id: NodeId) -> (context: Self)
        ensures
            context@ == (ContextModel {
                not_found: Set::empty(),
                chat_subs: Map::empty(),
                profile_subs: Map::empty(),
                recovering: Set::empty(),
                streams: Map::empty(),
                local: local_peer_id,
            }),
    {
        let context = OwnedContext {
            not_found: topic_set_new(),
            chat_subs: chat_subs_new(),
            profile_subs: profile_subs_new(),
            ongoing_recovery: topic_set_new(),
            stream_cache: StreamCache::default(),
            local_peer_id,
        };
        assert(context@ =~= (ContextModel {
            not_found: Set::empty(),
            chat_subs: Map::empty(),
            profile_subs: Map::empty(),
            recovering: Set::empty(),
            streams: Map::empty(),
            local: local_peer_id,
        }));
        context
    }

    /// Whether to start recovering a topic, which is not done where it is marked as
    /// being recovered. The mark that is set for the topic is taken away before the
    /// recovery has ended, so that no topic stays marked.
    pub fn start_recovery(&mut self, topic: Topic) -> (start: bool)
        ensures
            start == !old(self)@.recovering.contains(key_of(topic)),
            final(self)@ == old(self)@,
    {
        let ghost before = self@;
        let key: TopicKey = to_key(topic);
        if !topic_set_insert(&mut self.ongoing_recovery, key) {
            assert(self@ =~= before);
            return false;
        }
        topic_set_remove(&mut self.ongoing_recovery, &key);
        assert(self@ =~= before);
        true
    }

    /// The recovery of a topic has ended. One that failed is remembered.
    pub fn recovery_finished(&mut self, topic: Topic, recovered: bool)
        ensures
            final(self)@ == (ContextModel {
                not_found: if recovered {
                    old(self)@.not_found
                } else {
                    old(self)@.not_found.insert(key_of(topic))
                },
                ..old(self)@
            }),
    {
        if !recovered {
            topic_set_insert(&mut self.not_found, to_key(topic));
        }
    }

    /// Tells everybody who listens to a chat. Those who cannot be told stop
    /// listening. `send` hands the events out and tells what became of each.
    pub fn push_chat_event<Send: FnOnce(Vec<(PathId, ClientEvent)>) -> Vec<Delivery>>(
        &mut self,
        topic: ChatName,
        event: &Vec<u8>,
        send: Send,
    )
        requires
            forall|events: Vec<(PathId, ClientEvent)>|
                old(self)@.chat_subs.contains_key(topic) && tells(
                    events@,
                    old(self)@.chat_subs[topic],
                    event@,
                ) ==> #[trigger] call_requires(send, (events,)),
            forall|events: Vec<(PathId, ClientEvent)>, outcomes: Vec<Delivery>| #[trigger]
                call_ensures(send, (events,), outcomes) ==> outcomes@.len() == events@.len(),
        ensures
            if old(self)@.chat_subs.contains_key(topic) {
                exists|left: Map<PathId, CallId>| #[trigger]
                    told(send, old(self)@.chat_subs[topic], event@, left) && final(self)@ == (
                    ContextModel {
                        chat_subs: old(self)@.chat_subs.insert(topic, left),
                        ..old(self)@
                    })
            } else {
                final(self)@ == old(self)@
            },
    {
        let ghost before = self@;
        match chat_subs_remove(&mut self.chat_subs, &topic) {
            Some(subs) => {
                let events: Vec<(PathId, ClientEvent)> = to_tell(&subs, event);
                let ghost asked = events;
                let ghost all = events@;
                let mut listeners: Vec<(PathId, CallId)> = Vec::new();
                let mut i: usize = 0;
                while i < events.len()
                    invariant
                        i <= events@.len(),
                        events@ == all,
                        tells(all, subs@, event@),
                        listeners@.len() == i,
                        forall|k: int|
                            0 <= k < i ==> (#[trigger] listeners@[k]) == (
                                all[k].0,
                                subs@[all[k].0],
                            ),
                    decreases events.len() - i,
                {
                    let ClientEvent::Sub(call, _) = &events[i].1;
                    listeners.push((events[i].0, *call));
                    i = i + 1;
                }
                let outcomes: Vec<Delivery> = send(events);
                assert(call_ensures(send, (asked,), outcomes));
                let mut kept: HashMap<PathId, CallId> = HashMap::new();
                let mut i: usize = 0;
                while i < listeners.len()
                    invariant
                        i <= listeners@.len(),
                        listeners@.len() == all.len(),
                        outcomes@.len() == all.len(),
                        tells(all, subs@, event@),
                        forall|k: int|
                            0 <= k < listeners@.len() ==> (#[trigger] listeners@[k]) == (
                                all[k].0,
                                subs@[all[k].0],
                            ),
                        forall|path: PathId| #[trigger]
                            kept@.contains_key(path) <==> delivered_to(
                                all.take(i as int),
                                outcomes@,
                                path,
                            ),
                        forall|path: PathId| #[trigger]
                            kept@.contains_key(path) ==> kept@[path] == subs@[path],
                    decreases listeners.len() - i,
                {
                    let ghost prior = kept@;
                    let (path, call) = listeners[i];
                    if outcomes[i] == Delivery::Sent {
                        kept.insert(path, call);
                    }
                    proof {
                        let shorter = all.take(i as int);
                        let longer = all.take(i as int + 1);
                        assert(listeners@[i as int].0 == all[i as int].0);
                        assert forall|p: PathId| #[trigger]
                            kept@.contains_key(p) <==> delivered_to(longer, outcomes@, p) by {
                            if delivered_to(shorter, outcomes@, p) {
                                let k = choose|k: int|
                                    0 <= k < shorter.len() && (#[trigger] shorter[k]).0 == p
                                        && outcomes@[k] is Sent;
                                assert(longer[k].0 == p);
                            }
                            if delivered_to(longer, outcomes@, p) {
                                let k = choose|k: int|
                                    0 <= k < longer.len() && (#[trigger] longer[k]).0 == p
                                        && outcomes@[k] is Sent;
                                if k < i {
                                    assert(shorter[k].0 == p);
                                }
                            }
                            assert(longer[i as int].0 == path);
                            assert(prior.contains_key(p) <==> delivered_to(
                                shorter,
                                outcomes@,
                                p,
                            ));
                        }
                    }
                    i = i + 1;
                }
                let ghost left = kept@;
                assert(all.take(all.len() as int) =~= all);
                chat_subs_insert(&mut self.chat_subs, topic, kept);
                assert(told(send, before.chat_subs[topic], event@, left));
                assert(self@ =~= (ContextModel {
                    chat_subs: before.chat_subs.insert(topic, left),
                    ..before
                }));
            },
            None => {
                assert(self@ =~= before);
            },
        }
    }

    /// Tells whoever listens to a profile. One that refuses stops listening.
    /// Tells whether the mail went there.
    pub fn push_profile_event<TrySend: FnOnce(PathId, ClientEvent) -> Delivery>(
        &mut self,
        for_who: Identity,
        mail: Vec<u8>,
        try_send: TrySend,
    ) -> (delivered: bool)
        requires
            old(self)@.profile_subs.contains_key(for_who) ==> {
                let (path, call) = old(self)@.profile_subs[for_who];
                call_requires(try_send, (path, ClientEvent::Sub(call, mail)))
            },
        ensures
            if old(self)@.profile_subs.contains_key(for_who) {
                let (path, call) = old(self)@.profile_subs[for_who];
                exists|outcome: Delivery| #[trigger]
                    call_ensures(try_send, (path, ClientEvent::Sub(call, mail)), outcome) && {
                        &&& delivered == (outcome is Sent)
                        &&& final(self)@ == (ContextModel {
                            profile_subs: if outcome is Refused {
                                old(self)@.profile_subs.remove(for_who)
                            } else {
                                old(self)@.profile_subs
                            },
                            ..old(self)@
                        })
                    }
            } else {
                !delivered && final(self)@ == old(self)@
            },
    {
        let (path, call) = match profile_subs_get(&self.profile_subs, &for_who) {
            Some(sub) => sub,
            None => {
                return false;
            },
        };
        let outcome: Delivery = try_send(path, ClientEvent::Sub(call, mail));
        assert(call_ensures(try_send, (path, ClientEvent::Sub(call, mail)), outcome));
        match outcome {
            Delivery::NoClient => false,
            Delivery::Sent => true,
            Delivery::Refused => {
                profile_subs_remove(&mut self.profile_subs, &for_who);
                false
            },
        }
    }

    /// A stream to `node` that waits to be used again, where there is any. Where
    /// there is none, a new one has to be opened.
    pub fn open_stream_with(&mut self, node: NodeId, now: u64) -> (stream: Option<u64>)
        ensures
            stream == taken_from(old(self)@.streams, node, now),
            final(self)@ == (ContextModel {
                streams: after_taking(old(self)@.streams, node, now),
                ..old(self)@
            }),
    {
        self.stream_cache.reuse(node, now)
    }

    /// What it takes to ask a peer: the stream to it, where one could be had, and
    /// the header in front of a message of `len` bytes.
    pub fn send_rpc<S, X>(topic: Topic, prefix: Prefix, len: usize, stream: Option<S>) -> (plan:
        Result<(S, RequestHeader), ChatError<X>>)
        ensures
            match stream {
                Some(stream) => plan matches Ok((to, header)) && to == stream && is_header(
                    header,
                    prefix,
                    topic,
                    len,
                ),
                None => plan == Err::<(S, RequestHeader), ChatError<X>>(ChatError::NoReplicator),
            },
    {
        match stream {
            Some(stream) => Ok((stream, RequestHeader::new(prefix, topic, len))),
            None => Err(ChatError::NoReplicator),
        }
    }

    /// What it takes to ask the other members of a topic's group: who they are,
    /// and the header in front of a message of `len` bytes. A server outside the
    /// group asks nobody.
    pub fn repl_rpc_low<X>(
        &self,
        closest: &Vec<NodeId>,
        capacity: usize,
        topic: Topic,
        prefix: Prefix,
        len: usize,
    ) -> (plan: Result<(Vec<NodeId>, RequestHeader), ChatError<X>>)
        requires
            closest@.len() <= capacity,
        ensures
            match others_of(closest@, capacity as nat, self@.local) {
                Some(others) => plan matches Ok((peers, header)) && peers@ == others && is_header(
                    header,
                    prefix,
                    topic,
                    len,
                ),
                None => plan == Err::<(Vec<NodeId>, RequestHeader), ChatError<X>>(
                    ChatError::NoReplicator,
                ),
            },
    {
        match self.get_others(closest, capacity) {
            Some(others) => Ok((others, RequestHeader::new(prefix, topic, len))),
            None => Err(ChatError::NoReplicator),
        }
    }

    /// Makes of the reply to a request the value that was asked for. A stream
    /// that carried a whole reply is put away, whether or not the reply decodes.
    /// Tells whether the stream was kept; one that was not is to be closed.
    pub fn rpc_reply<R, X, Decode: FnOnce(Vec<u8>) -> Option<R>>(
        &mut self,
        peer: NodeId,
        stream: u64,
        now: u64,
        reply: Reply<X>,
        decode: Decode,
    ) -> (outcome: (Result<R, ChatError<X>>, bool))
        requires
            reply matches Reply::Body(bytes) ==> call_requires(decode, (bytes,)),
        ensures
            reply_means(reply, decode, outcome.0),
            if reply is Body {
                &&& final(self)@ == (ContextModel {
                    streams: put_away(old(self)@.streams, peer, stream, now),
                    ..old(self)@
                })
                &&& outcome.1 == (waiting_for(old(self)@.streams, peer).len() < 10)
            } else {
                &&& final(self)@ == old(self)@
                &&& !outcome.1
            },
    {
        match reply {
            Reply::Body(bytes) => {
                let kept: bool = self.stream_cache.recycle(peer, stream, now);
                match decode(bytes) {
                    Some(decoded) => (Ok(decoded), kept),
                    None => (Err(ChatError::InvalidResponse), kept),
                }
            },
            Reply::Failed(error) => (Err(ChatError::Other(error)), false),
            Reply::TimedOut => (Err(ChatError::Timeout), false),
        }
    }

    /// Requests were sent to which no reply is expected: their streams are put
    /// away at once. Tells which were kept; the others are to be closed.
    pub fn settle(&mut self, streams: &Vec<(NodeId, u64)>, now: u64) -> (kept: Vec<bool>)
        ensures
            final(self)@ == (ContextModel {
                streams: all_put_away(old(self)@.streams, streams@, now),
                ..old(self)@
            }),
            kept@.len() == streams@.len(),
            forall|i: int|
                0 <= i < kept@.len() ==> (#[trigger] kept@[i]) == (waiting_for(
                    all_put_away(old(self)@.streams, streams@.take(i), now),
                    streams@[i].0,
                ).len() < 10),
    {
        let ghost before = self@;
        let mut kept: Vec<bool> = Vec::new();
        let mut i: usize = 0;
        while i < streams.len()
            invariant
                i <= streams.len(),
                before == old(self)@,
                self@ == (ContextModel {
                    streams: all_put_away(before.streams, streams@.take(i as int), now),
                    ..before
                }),
                kept@.len() == i,
                forall|k: int|
                    0 <= k < i ==> (#[trigger] kept@[k]) == (waiting_for(
                        all_put_away(before.streams, streams@.take(k), now),
                        streams@[k].0,
                    ).len() < 10),
            decreases streams.len() - i,
        {
            assert(streams@.take(i as int + 1).drop_last() =~= streams@.take(i as int));
            let (peer, stream) = streams[i];
            let put: bool = self.stream_cache.recycle(peer, stream, now);
            kept.push(put);
            i = i + 1;
        }
        assert(streams@.take(streams@.len() as int) =~= streams@);
        kept
    }

    /// The members of a group other than this server. `closest` are the nodes
    /// closest to a topic, at most `capacity` of them.
    pub fn get_others(&self, closest: &Vec<NodeId>, capacity: usize) -> (others: Option<
        Vec<NodeId>,
    >)
        requires
            closest@.len() <= capacity,
        ensures
            match others {
                Some(others) => others_of(closest@, capacity as nat, self@.local) == Some(others@),
                None => others_of(closest@, capacity as nat, self@.local) is None,
            },
    {
        Self::get_others_for(closest, capacity, self.local_peer_id)
    }

    /// The members of a group other than `id`. `closest` are the nodes closest to
    /// a topic, at most `capacity` of them.
    pub fn get_others_for(closest: &Vec<NodeId>, capacity: usize, id: NodeId) -> (others: Option<
        Vec<NodeId>,
    >)
        requires
            closest@.len() <= capacity,
        ensures
            match others {
                Some(others) => others_of(closest@, capacity as nat, id) == Some(others@),
                None => others_of(closest@, capacity as nat, id) is None,
            },
    {
        let mut others: Vec<NodeId> = Vec::new();
        let mut i: usize = 0;
        while i < closest.len()
            invariant
                i <= closest.len(),
                others@ == without(closest@.take(i as int), id),
            decreases closest.len() - i,
        {
            assert(closest@.take(i as int + 1).drop_last() =~= closest@.take(i as int));
            if !same_id(&closest[i], &id) {
                others.push(closest[i]);
            }
            i = i + 1;
        }
        assert(closest@.take(closest@.len() as int) =~= closest@);
        if others.len() == capacity {
            None
        } else {
            Some(others)
        }
    }

    /// Whether a topic that this server should serve has to be recovered: where
    /// the database does not have it.
    pub fn should_recover<
        HasProfile: FnOnce(Identity) -> bool,
        HasChat: FnOnce(ChatName) -> bool,
    >(topic: Topic, has_profile: HasProfile, has_chat: HasChat) -> (recover: bool)
        requires
            topic matches Topic::Profile(identity) ==> call_requires(has_profile, (identity,)),
            topic matches Topic::Chat(name) ==> call_requires(has_chat, (name,)),
        ensures
            match topic {
                Topic::Profile(identity) => call_ensures(has_profile, (identity,), !recover),
                Topic::Chat(name) => call_ensures(has_chat, (name,), !recover),
            },
    {
        let known: bool = match topic {
            Topic::Profile(identity) => has_profile(identity),
            Topic::Chat(name) => has_chat(name),
        };
        !known
    }
}

proof fn lemma_without(ids: Seq<NodeId>, id: NodeId)
    ensures
        without(ids, id).len() <= ids.len(),
        without(ids, id).len() == ids.len() <==> !ids.contains(id),
        !without(ids, id).contains(id),
        forall|other: NodeId|
            other != id ==> (#[trigger] without(ids, id).contains(other) <==> ids.contains(other)),
    decreases ids.len(),
{
    if ids.len() > 0 {
        let shorter = ids.drop_last();
        let last = ids.last();
        let now = without(ids, id);
        let before = without(shorter, id);
        lemma_without(shorter, id);
        assert forall|x: NodeId| #[trigger] ids.contains(x) <==> shorter.contains(x) || x
            == last by {
            assert(ids[ids.len() - 1] == last);
            if shorter.contains(x) {
                let k = choose|k: int| 0 <= k < shorter.len() && shorter[k] == x;
                assert(ids[k] == x);
            }
            if ids.contains(x) && x != last {
                let k = choose|k: int| 0 <= k < ids.len() && ids[k] == x;
                assert(shorter[k] == x);
            }
        }
        if last != id {
            assert forall|x: NodeId| #[trigger] now.contains(x) <==> before.contains(x) || x
                == last by {
                assert(now[before.len() as int] == last);
                if before.contains(x) {
                    let k = choose|k: int| 0 <= k < before.len() && before[k] == x;
                    assert(now[k] == x);
                }
            }
        }
    }
}

/// A full group is shown to its members alone, and each sees all the others.
pub proof fn lemma_group_shown_to_members(
    closest: Seq<NodeId>,
    capacity: nat,
    id: NodeId,
    other: NodeId,
)
    requires
        closest.len() == capacity,
        capacity > 0,
        other != id,
    ensures
        others_of(closest, capacity, id) is Some <==> closest.contains(id),
        others_of(closest, capacity, id) matches Some(others) ==> !others.contains(id) && (
        others.contains(other) <==> closest.contains(other)),
{
    lemma_without(closest, id);
}

/// The streams that opened, each with the peer it leads to, in order.
pub open spec fn paired<S>(peers: Seq<NodeId>, streams: Seq<Option<S>>) -> Seq<(NodeId, S)>
    decreases streams.len(),
{
    if streams.len() == 0 {
        Seq::empty()
    } else {
        let before = paired(peers, streams.drop_last());
        match streams.last() {
            Some(stream) => before.push((peers[streams.len() - 1], stream)),
            None => before,
        }
    }
}

/// Pairs the streams that opened with their peers. The others are passed over.
pub fn pair_streams<S>(peers: &Vec<NodeId>, streams: Vec<Option<S>>) -> (opened: Vec<(NodeId, S)>)
    requires
        peers@.len() == streams@.len(),
    ensures
        opened@ == paired(peers@, streams@),
{
    let ghost all = streams@;
    let mut opened: Vec<(NodeId, S)> = Vec::new();
    let count: usize = peers.len();
    let mut i: usize = 0;
    for stream in it: streams
        invariant
            it.seq() == all,
            peers@.len() == all.len(),
            count == all.len(),
            i == it.index(),
            opened@ == paired(peers@, all.take(i as int)),
    {
        proof {
            assert(all.take(i as int + 1).drop_last() =~= all.take(i as int));
            assert(all.take(i as int + 1).last() == stream);
        }
        match stream {
            Some(stream) => {
                opened.push((peers[i], stream));
            },
            None => {},
        }
        i = i + 1;
    }
    assert(all.take(all.len() as int) =~= all);
    opened
}

/// `opened` holds the streams at the places `at`, each with its peer, in order, and
/// `at` are all the places at which there is a stream.
pub open spec fn opened_at<S>(
    peers: Seq<NodeId>,
    streams: Seq<Option<S>>,
    opened: Seq<(NodeId, S)>,
    at: Seq<int>,
) -> bool {
    &&& opened.len() == at.len()
    &&& forall|k: int|
        0 <= k < at.len() ==> {
            &&& 0 <= #[trigger] at[k] < streams.len()
            &&& streams[at[k]] == Some(opened[k].1)
            &&& peers[at[k]] == opened[k].0
        }
    &&& forall|j: int, k: int| 0 <= j < k < at.len() ==> #[trigger] at[j] < #[trigger] at[k]
    &&& forall|i: int|
        0 <= i < streams.len() && #[trigger] streams[i] is Some ==> at.contains(i)
}

proof fn lemma_paired<S>(peers: Seq<NodeId>, streams: Seq<Option<S>>) -> (at: Seq<int>)
    ensures
        opened_at(peers, streams, paired(peers, streams), at),
    decreases streams.len(),
{
    if streams.len() == 0 {
        Seq::empty()
    } else {
        let shorter = streams.drop_last();
        let last = streams.len() - 1;
        let before = lemma_paired(peers, shorter);
        let opened = paired(peers, streams);
        let at = if streams.last() is Some {
            before.push(last)
        } else {
            before
        };
        assert forall|k: int| 0 <= k < at.len() implies {
            &&& 0 <= #[trigger] at[k] < streams.len()
            &&& streams[at[k]] == Some(opened[k].1)
            &&& peers[at[k]] == opened[k].0
        } by {
            if k < before.len() {
                assert(0 <= before[k] < shorter.len());
                assert(shorter[before[k]] == streams[before[k]]);
            }
        }
        assert forall|i: int|
            0 <= i < streams.len() && #[trigger] streams[i] is Some implies at.contains(i) by {
            if i < last {
                assert(shorter[i] is Some);
                let k = choose|k: int| 0 <= k < before.len() && before[k] == i;
                assert(at[k] == i);
            } else {
                assert(at[before.len() as int] == last);
            }
        }
        at
    }
}

/// Every stream that opened is paired with its own peer, whatever their number, and
/// they keep their order. Nothing else is paired.
pub proof fn lemma_streams_paired_with_their_peers<S>(peers: Vec<NodeId>, streams: Vec<Option<S>>)
    requires
        peers@.len() == streams@.len(),
    ensures
        forall|opened: Vec<(NodeId, S)>| #[trigger]
            call_ensures(pair_streams::<S>, (&peers, streams), opened) ==> exists|at: Seq<int>|
                #[trigger] opened_at(peers@, streams@, opened@, at),
{
    let at = lemma_paired(peers@, streams@);
    assert forall|opened: Vec<(NodeId, S)>| #[trigger]
        call_ensures(pair_streams::<S>, (&peers, streams), opened) implies exists|at: Seq<int>|
        #[trigger] opened_at(peers@, streams@, opened@, at) by {
        assert(opened_at(peers@, streams@, opened@, at));
    }
}

/// A stream may be used again for less than three seconds after it was put away.
pub proof fn lemma_fresh_for_three_seconds(since: u64, now: u64)
    ensures
        fresh(since, now) <==> now < since + 3 * 1_000 * 1_000_000,
        forall|yes: bool| #[trigger]
            call_ensures(is_fresh, (since, now), yes) ==> (yes <==> now < since + 3 * 1_000
                * 1_000_000),
{
}

/// The streams that may still be used are kept, in order, and no others.
pub proof fn lemma_fresh_are_kept(items: Seq<(u64, u64)>, now: u64)
    ensures
        kept_fresh(items, now) == items.filter(
            |item: (u64, u64)| now < item.1 + 3 * 1_000 * 1_000_000,
        ),
    decreases items.len(),
{
    reveal(Seq::filter);
    if items.len() > 0 {
        lemma_fresh_are_kept(items.drop_last(), now);
    }
}

/// What waits for `peer`, the oldest first.
pub open spec fn wait_for(
    cache: Map<NodeId, Seq<(u64, u64)>>,
    peer: NodeId,
    items: Seq<(u64, u64)>,
) -> bool {
    if cache.contains_key(peer) {
        items == cache[peer]
    } else {
        items.len() == 0
    }
}

/// What waits for others than `peer` is the same.
pub open spec fn others_wait_as_before(
    before: Map<NodeId, Seq<(u64, u64)>>,
    after: Map<NodeId, Seq<(u64, u64)>>,
    peer: NodeId,
) -> bool {
    forall|other: NodeId|
        other != peer ==> (#[trigger] after.contains_key(other) <==> before.contains_key(other))
            && (before.contains_key(other) ==> after[other] == before[other])
}

/// A stream is put away behind those that wait for its peer where fewer than ten do,
/// and otherwise not at all.
pub open spec fn rightly_recycled(
    before: Map<NodeId, Seq<(u64, u64)>>,
    peer: NodeId,
    stream: u64,
    now: u64,
    after: Map<NodeId, Seq<(u64, u64)>>,
    kept: bool,
) -> bool {
    &&& others_wait_as_before(before, after, peer)
    &&& exists|items: Seq<(u64, u64)>| #[trigger]
        wait_for(before, peer, items) && {
            &&& kept <==> items.len() < 10
            &&& wait_for(
                after,
                peer,
                if kept {
                    items.push((stream, now))
                } else {
                    items
                },
            )
        }
}

/// Of the streams for `peer` that may still be used, the one put away last is handed
/// out, and the others go on waiting.
pub open spec fn rightly_reused(
    before: Map<NodeId, Seq<(u64, u64)>>,
    peer: NodeId,
    now: u64,
    after: Map<NodeId, Seq<(u64, u64)>>,
    stream: Option<u64>,
) -> bool {
    &&& others_wait_as_before(before, after, peer)
    &&& exists|items: Seq<(u64, u64)>| #[trigger]
        wait_for(before, peer, items) && {
            let kept = items.filter(|item: (u64, u64)| now < item.1 + 3 * 1_000 * 1_000_000);
            match stream {
                None => kept.len() == 0 && wait_for(after, peer, kept),
                Some(stream) => {
                    &&& kept.len() > 0
                    &&& stream == kept[kept.len() - 1].0
                    &&& wait_for(after, peer, kept.take(kept.len() - 1))
                },
            }
        }
}

proof fn lemma_rightly_recycled(
    before: Map<NodeId, Seq<(u64, u64)>>,
    peer: NodeId,
    stream: u64,
    now: u64,
)
    ensures
        rightly_recycled(
            before,
            peer,
            stream,
            now,
            put_away(before, peer, stream, now),
            waiting_for(before, peer).len() < 10,
        ),
{
    assert(wait_for(before, peer, waiting_for(before, peer)));
}

proof fn lemma_rightly_reused(before: Map<NodeId, Seq<(u64, u64)>>, peer: NodeId, now: u64)
    ensures
        rightly_reused(
            before,
            peer,
            now,
            after_taking(before, peer, now),
            taken_from(before, peer, now),
        ),
{
    let items = waiting_for(before, peer);
    let kept = kept_fresh(items, now);
    lemma_fresh_are_kept(items, now);
    assert(wait_for(before, peer, items));
    if kept.len() > 0 {
        assert(kept.take(kept.len() - 1) =~= kept.drop_last());
    }
}

/// Streams are put away and handed out again as they should be, be it on the cache
/// alone or on the whole context.
pub proof fn lemma_streams_come_back(peer: NodeId, stream: u64, now: u64)
    ensures
        forall|cache: &mut StreamCache, kept: bool| #[trigger]
            call_ensures(StreamCache::recycle, (cache, peer, stream, now), kept)
                ==> rightly_recycled(cache@, peer, stream, now, final(cache)@, kept),
        forall|cache: &mut StreamCache, taken: Option<u64>| #[trigger]
            call_ensures(StreamCache::reuse, (cache, peer, now), taken) ==> rightly_reused(
                cache@,
                peer,
                now,
                final(cache)@,
                taken,
            ),
        forall|context: &mut OwnedContext, taken: Option<u64>| #[trigger]
            call_ensures(OwnedContext::open_stream_with, (context, peer, now), taken) ==> {
                &&& rightly_reused(context@.streams, peer, now, final(context)@.streams, taken)
                &&& final(context)@.not_found == context@.not_found
                &&& final(context)@.chat_subs == context@.chat_subs
                &&& final(context)@.profile_subs == context@.profile_subs
                &&& final(context)@.recovering == context@.recovering
                &&& final(context)@.local == context@.local
            },
{
    assert forall|cache: &mut StreamCache, kept: bool| #[trigger]
        call_ensures(
            StreamCache::recycle,
            (cache, peer, stream, now),
            kept,
        ) implies rightly_recycled(
        cache@,
        peer,
        stream,
        now,
        final(cache)@,
        kept,
    ) by {
        lemma_rightly_recycled(cache@, peer, stream, now);
    }
    assert forall|cache: &mut StreamCache, taken: Option<u64>| #[trigger]
        call_ensures(StreamCache::reuse, (cache, peer, now), taken) implies rightly_reused(
        cache@,
        peer,
        now,
        final(cache)@,
        taken,
    ) by {
        lemma_rightly_reused(cache@, peer, now);
    }
    assert forall|context: &mut OwnedContext, taken: Option<u64>| #[trigger]
        call_ensures(OwnedContext::open_stream_with, (context, peer, now), taken) implies {
        &&& rightly_reused(context@.streams, peer, now, final(context)@.streams, taken)
        &&& final(context)@.not_found == context@.not_found
        &&& final(context)@.chat_subs == context@.chat_subs
        &&& final(context)@.profile_subs == context@.profile_subs
        &&& final(context)@.recovering == context@.recovering
        &&& final(context)@.local == context@.local
    } by {
        lemma_rightly_reused(context@.streams, peer, now);
    }
}

/// At most ten of `items`, the first.
pub open spec fn up_to_ten(items: Seq<(u64, u64)>) -> Seq<(u64, u64)> {
    if items.len() <= 10 {
        items
    } else {
        items.take(10)
    }
}

/// Those of `streams` that lead to `peer`, in order, as they are put away at `now`.
pub open spec fn leading_to(streams: Seq<(NodeId, u64)>, peer: NodeId, now: u64) -> Seq<
    (u64, u64),
> {
    streams.filter(|stream: (NodeId, u64)| stream.0 == peer).map_values(
        |stream: (NodeId, u64)| (stream.1, now),
    )
}

proof fn lemma_all_put_away(
    cache: Map<NodeId, Seq<(u64, u64)>>,
    streams: Seq<(NodeId, u64)>,
    now: u64,
    peer: NodeId,
)
    requires
        waiting_for(cache, peer).len() <= 10,
    ensures
        waiting_for(all_put_away(cache, streams, now), peer) == up_to_ten(
            waiting_for(cache, peer) + leading_to(streams, peer, now),
        ),
    decreases streams.len(),
{
    reveal(Seq::filter);
    let items = waiting_for(cache, peer);
    if streams.len() == 0 {
        assert(items + leading_to(streams, peer, now) =~= items);
    } else {
        let shorter = streams.drop_last();
        let (to, stream) = streams.last();
        lemma_all_put_away(cache, shorter, now, peer);
        let before = items + leading_to(shorter, peer, now);
        if to == peer {
            assert(leading_to(streams, peer, now) =~= leading_to(shorter, peer, now).push(
                (stream, now),
            ));
            assert(items + leading_to(streams, peer, now) =~= before.push((stream, now)));
            assert(before.len() > 10 ==> before.push((stream, now)).take(10) =~= before.take(10));
            assert(before.len() == 10 ==> before.push((stream, now)).take(10) =~= before);
        } else {
            assert(leading_to(streams, peer, now) =~= leading_to(shorter, peer, now));
        }
    }
}

/// Streams to whose requests no reply is expected wait again for their peers, behind
/// those that wait already and in order, as long as there is room for them.
pub proof fn lemma_settled_streams_wait(streams: Vec<(NodeId, u64)>, now: u64)
    ensures
        forall|context: &mut OwnedContext, kept: Vec<bool>| #[trigger]
            call_ensures(OwnedContext::settle, (context, &streams, now), kept) ==> {
                &&& final(context)@.not_found == context@.not_found
                &&& final(context)@.chat_subs == context@.chat_subs
                &&& final(context)@.profile_subs == context@.profile_subs
                &&& final(context)@.recovering == context@.recovering
                &&& final(context)@.local == context@.local
                &&& kept@.len() == streams@.len()
                &&& forall|peer: NodeId, items: Seq<(u64, u64)>|
                    wait_for(context@.streams, peer, items) && items.len() <= 10 ==> #[trigger]
                        wait_for(
                        final(context)@.streams,
                        peer,
                        up_to_ten(items + leading_to(streams@, peer, now)),
                    )
                &&& forall|i: int, items: Seq<(u64, u64)>|
                    0 <= i < kept@.len() && #[trigger] wait_for(
                        context@.streams,
                        streams@[i].0,
                        items,
                    ) && items.len() <= 10 ==> (#[trigger] kept@[i] <==> items.len() + leading_to(
                        streams@.take(i),
                        streams@[i].0,
                        now,
                    ).len() < 10)
            },
{
    assert forall|context: &mut OwnedContext, kept: Vec<bool>| #[trigger]
        call_ensures(OwnedContext::settle, (context, &streams, now), kept) implies {
        &&& forall|peer: NodeId, items: Seq<(u64, u64)>|
            wait_for(context@.streams, peer, items) && items.len() <= 10 ==> #[trigger] wait_for(
                final(context)@.streams,
                peer,
                up_to_ten(items + leading_to(streams@, peer, now)),
            )
        &&& forall|i: int, items: Seq<(u64, u64)>|
            0 <= i < kept@.len() && #[trigger] wait_for(context@.streams, streams@[i].0, items)
                && items.len() <= 10 ==> (#[trigger] kept@[i] <==> items.len() + leading_to(
                streams@.take(i),
                streams@[i].0,
                now,
            ).len() < 10)
    } by {
        let before = context@.streams;
        let after = final(context)@.streams;
        assert forall|peer: NodeId, items: Seq<(u64, u64)>|
            wait_for(before, peer, items) && items.len() <= 10 implies #[trigger] wait_for(
            after,
            peer,
            up_to_ten(items + leading_to(streams@, peer, now)),
        ) by {
            assert(items =~= waiting_for(before, peer));
            lemma_all_put_away(before, streams@, now, peer);
        }
        assert forall|i: int, items: Seq<(u64, u64)>|
            0 <= i < kept@.len() && #[trigger] wait_for(before, streams@[i].0, items)
                && items.len() <= 10 implies (#[trigger] kept@[i] <==> items.len() + leading_to(
            streams@.take(i),
            streams@[i].0,
            now,
        ).len() < 10) by {
            assert(items =~= waiting_for(before, streams@[i].0));
            lemma_all_put_away(before, streams@.take(i), now, streams@[i].0);
        }
    }
}

/// Two topics have one key exactly where they are the same.
pub proof fn lemma_keys_tell_topics_apart(a: Topic, b: Topic)
    ensures
        key_of(a) == key_of(b) <==> a == b,
{
}

/// A recovery starts unless the topic is marked as being recovered, and marks nothing.
/// One that failed is remembered, for its topic alone; one that did not leaves
/// everything as it was.
pub proof fn lemma_recovery(topic: Topic, recovered: bool)
    ensures
        forall|context: &mut OwnedContext, start: bool| #[trigger]
            call_ensures(OwnedContext::start_recovery, (context, topic), start) ==> {
                &&& start <==> !context@.recovering.contains(
                    match topic {
                        Topic::Profile(identity) => (false, identity),
                        Topic::Chat(name) => (true, name),
                    },
                )
                &&& final(context)@ == context@
            },
        forall|context: &mut OwnedContext, done: ()| #[trigger]
            call_ensures(OwnedContext::recovery_finished, (context, topic, recovered), done) ==> {
                &&& final(context)@.chat_subs == context@.chat_subs
                &&& final(context)@.profile_subs == context@.profile_subs
                &&& final(context)@.recovering == context@.recovering
                &&& final(context)@.streams == context@.streams
                &&& final(context)@.local == context@.local
                &&& recovered ==> final(context)@.not_found == context@.not_found
                &&& forall|chat: bool, bytes: [u8; 32]| #[trigger]
                    final(context)@.not_found.contains((chat, bytes))
                        <==> context@.not_found.contains((chat, bytes)) || !recovered && topic
                        == if chat {
                        Topic::Chat(bytes)
                    } else {
                        Topic::Profile(bytes)
                    }
            },
{
}

/// Whether a topic is to be recovered is for the database to say: a profile is looked
/// up among the profiles, a chat among the chats, and what is there is not recovered.
pub proof fn lemma_recover_what_is_missing<
    HasProfile: FnOnce(Identity) -> bool,
    HasChat: FnOnce(ChatName) -> bool,
>(id: [u8; 32], has_profile: HasProfile, has_chat: HasChat, known: bool)
    requires
        forall|answer: bool| #[trigger]
            call_ensures(has_profile, (id,), answer) ==> answer == known,
        forall|answer: bool| #[trigger] call_ensures(has_chat, (id,), answer) ==> answer != known,
    ensures
        forall|recover: bool| #[trigger]
            call_ensures(
                OwnedContext::should_recover::<HasProfile, HasChat>,
                (Topic::Profile(id), has_profile, has_chat),
                recover,
            ) ==> recover != known,
        forall|recover: bool| #[trigger]
            call_ensures(
                OwnedContext::should_recover::<HasProfile, HasChat>,
                (Topic::Chat(id), has_profile, has_chat),
                recover,
            ) ==> recover == known,
{
}

/// Each of those who listened to the chat is told the content once, under its own
/// call, and nobody else is told. Exactly those whom it reached go on listening,
/// under the same call.
pub open spec fn rightly_told<Send: FnOnce(Vec<(PathId, ClientEvent)>) -> Vec<Delivery>>(
    before: Map<PathId, CallId>,
    content: Seq<u8>,
    send: Send,
    after: Map<PathId, CallId>,
) -> bool {
    exists|events: Vec<(PathId, ClientEvent)>, outcomes: Vec<Delivery>| #[trigger]
        call_ensures(send, (events,), outcomes) && {
            &&& events@.len() == outcomes@.len()
            &&& forall|i: int|
                0 <= i < events@.len() ==> {
                    &&& before.contains_key((#[trigger] events@[i]).0)
                    &&& events@[i].1 matches ClientEvent::Sub(call, bytes)
                    &&& call == before[events@[i].0]
                    &&& bytes@ == content
                }
            &&& forall|i: int, j: int|
                0 <= i < j < events@.len() ==> (#[trigger] events@[i]).0 != (
                #[trigger] events@[j]).0
            &&& forall|path: PathId| #[trigger]
                before.contains_key(path) ==> exists|i: int|
                    {
                        &&& 0 <= i < events@.len()
                        &&& (#[trigger] events@[i]).0 == path
                        &&& after.contains_key(path) <==> outcomes@[i] is Sent
                    }
            &&& forall|path: PathId| #[trigger]
                after.contains_key(path) ==> before.contains_key(path) && after[path]
                    == before[path]
        }
}

/// A chat event goes to those who listen to the chat, and to no other chat's
/// listeners.
pub proof fn lemma_chat_event_reaches_listeners<
    Send: FnOnce(Vec<(PathId, ClientEvent)>) -> Vec<Delivery>,
>(chat: ChatName, event: Vec<u8>, send: Send)
    ensures
        forall|context: &mut OwnedContext, done: ()| #[trigger]
            call_ensures(OwnedContext::push_chat_event::<Send>, (context, chat, &event, send), done)
                ==> {
                &&& final(context)@.not_found == context@.not_found
                &&& final(context)@.profile_subs == context@.profile_subs
                &&& final(context)@.recovering == context@.recovering
                &&& final(context)@.streams == context@.streams
                &&& final(context)@.local == context@.local
                &&& final(context)@.chat_subs.dom() == context@.chat_subs.dom()
                &&& forall|other: ChatName|
                    other != chat && #[trigger] context@.chat_subs.contains_key(other)
                        ==> final(context)@.chat_subs[other] == context@.chat_subs[other]
                &&& context@.chat_subs.contains_key(chat) ==> rightly_told(
                    context@.chat_subs[chat],
                    event@,
                    send,
                    final(context)@.chat_subs[chat],
                )
            },
{
    assert forall|context: &mut OwnedContext, done: ()| #[trigger]
        call_ensures(OwnedContext::push_chat_event::<Send>, (context, chat, &event, send), done)
            && context@.chat_subs.contains_key(chat) implies rightly_told(
        context@.chat_subs[chat],
        event@,
        send,
        final(context)@.chat_subs[chat],
    ) && final(context)@.chat_subs.dom() =~= context@.chat_subs.dom() by {
        let before = context@.chat_subs[chat];
        let after = choose|left: Map<PathId, CallId>| #[trigger]
            told(send, before, event@, left) && final(context)@ == (ContextModel {
                chat_subs: context@.chat_subs.insert(chat, left),
                ..context@
            });
        let (events, outcomes) = choose|
            events: Vec<(PathId, ClientEvent)>,
            outcomes: Vec<Delivery>,
        | #[trigger]
            call_ensures(send, (events,), outcomes) && {
                &&& tells(events@, before, event@)
                &&& outcomes@.len() == events@.len()
                &&& forall|path: PathId| #[trigger]
                    after.contains_key(path) <==> delivered_to(events@, outcomes@, path)
                &&& forall|path: PathId| #[trigger]
                    after.contains_key(path) ==> after[path] == before[path]
            };
        assert(call_ensures(send, (events,), outcomes));
        assert forall|path: PathId| #[trigger] before.contains_key(path) implies exists|i: int|
            {
                &&& 0 <= i < events@.len()
                &&& (#[trigger] events@[i]).0 == path
                &&& after.contains_key(path) <==> outcomes@[i] is Sent
            } by {
            assert(addressed(events@, path));
            let i = choose|i: int| 0 <= i < events@.len() && (#[trigger] events@[i]).0 == path;
            if after.contains_key(path) {
                assert(delivered_to(events@, outcomes@, path));
                let k = choose|k: int|
                    0 <= k < events@.len() && (#[trigger] events@[k]).0 == path
                        && outcomes@[k] is Sent;
                assert(k == i);
            }
            if outcomes@[i] is Sent {
                assert(delivered_to(events@, outcomes@, path));
            }
        }
        assert forall|path: PathId| #[trigger] after.contains_key(path) implies before.contains_key(
            path,
        ) && after[path] == before[path] by {
            assert(delivered_to(events@, outcomes@, path));
            let k = choose|k: int|
                0 <= k < events@.len() && (#[trigger] events@[k]).0 == path && outcomes@[k] is Sent;
            assert(before.contains_key(events@[k].0));
        }
    }
}

/// Mail for a profile is offered to whoever listens to it, under the call with which
/// it subscribed. Only a listener that refuses stops listening, and mail counts as
/// delivered only where it went there.
pub proof fn lemma_mail_reaches_its_listener<TrySend: FnOnce(PathId, ClientEvent) -> Delivery>(
    for_who: Identity,
    mail: Vec<u8>,
    try_send: TrySend,
)
    ensures
        forall|context: &mut OwnedContext, delivered: bool| #[trigger]
            call_ensures(
                OwnedContext::push_profile_event::<TrySend>,
                (context, for_who, mail, try_send),
                delivered,
            ) ==> {
                &&& final(context)@.not_found == context@.not_found
                &&& final(context)@.chat_subs == context@.chat_subs
                &&& final(context)@.recovering == context@.recovering
                &&& final(context)@.streams == context@.streams
                &&& final(context)@.local == context@.local
                &&& forall|other: Identity|
                    other != for_who ==> (#[trigger] final(context)@.profile_subs.contains_key(
                        other,
                    ) <==> context@.profile_subs.contains_key(other))
                &&& forall|who: Identity| #[trigger]
                    final(context)@.profile_subs.contains_key(who)
                        ==> context@.profile_subs.contains_key(who)
                        && final(context)@.profile_subs[who] == context@.profile_subs[who]
                &&& !context@.profile_subs.contains_key(for_who) ==> !delivered
                &&& context@.profile_subs.contains_key(for_who) ==> exists|outcome: Delivery|
                    #[trigger] call_ensures(
                        try_send,
                        (
                            context@.profile_subs[for_who].0,
                            ClientEvent::Sub(context@.profile_subs[for_who].1, mail),
                        ),
                        outcome,
                    ) && (delivered <==> outcome is Sent) && (outcome is Refused <==> 
                        !final(context)@.profile_subs.contains_key(for_who))
            },
{
    assert forall|context: &mut OwnedContext, delivered: bool| #[trigger]
        call_ensures(
            OwnedContext::push_profile_event::<TrySend>,
            (context, for_who, mail, try_send),
            delivered,
        ) && context@.profile_subs.contains_key(for_who) implies exists|outcome: Delivery|
        #[trigger] call_ensures(
            try_send,
            (
                context@.profile_subs[for_who].0,
                ClientEvent::Sub(context@.profile_subs[for_who].1, mail),
            ),
            outcome,
        ) && (delivered <==> outcome is Sent) && (final(context)@.profile_subs.contains_key(for_who)
            <==> !(outcome is Refused)) by {
        let (path, call) = context@.profile_subs[for_who];
        let outcome = choose|outcome: Delivery| #[trigger]
            call_ensures(try_send, (path, ClientEvent::Sub(call, mail)), outcome) && {
                &&& delivered == (outcome is Sent)
                &&& final(context)@ == (ContextModel {
                    profile_subs: if outcome is Refused {
                        context@.profile_subs.remove(for_who)
                    } else {
                        context@.profile_subs
                    },
                    ..context@
                })
            };
        assert(call_ensures(
            try_send,
            (
                context@.profile_subs[for_who].0,
                ClientEvent::Sub(context@.profile_subs[for_who].1, mail),
            ),
            outcome,
        ));
    }
}

proof fn lemma_without_filters(ids: Seq<NodeId>, id: NodeId)
    ensures
        without(ids, id) == ids.filter(|other: NodeId| other != id),
    decreases ids.len(),
{
    reveal(Seq::filter);
    if ids.len() > 0 {
        lemma_without_filters(ids.drop_last(), id);
    }
}

/// The others of a group are its members but for one node, in order. Where as many
/// are left as a group has, that node gets nothing.
pub proof fn lemma_others_are_the_rest(closest: Vec<NodeId>, capacity: usize, id: NodeId)
    ensures
        forall|others: Option<Vec<NodeId>>| #[trigger]
            call_ensures(OwnedContext::get_others_for, (&closest, capacity, id), others) ==> {
                let rest = closest@.filter(|other: NodeId| other != id);
                match others {
                    Some(others) => others@ == rest && rest.len() != capacity,
                    None => rest.len() == capacity,
                }
            },
        forall|context: OwnedContext, others: Option<Vec<NodeId>>| #[trigger]
            call_ensures(OwnedContext::get_others, (&context, &closest, capacity), others)
                && context.local_peer_id == id ==> {
                let rest = closest@.filter(|other: NodeId| other != id);
                match others {
                    Some(others) => others@ == rest && rest.len() != capacity,
                    None => rest.len() == capacity,
                }
            },
{
    lemma_without_filters(closest@, id);
}

/// `header` announces `len` bytes about `topic` to the procedure `prefix`: its length
/// is the number with these four bytes, the most significant first, and it belongs
/// to no call.
pub open spec fn announces(header: RequestHeader, prefix: Prefix, topic: Topic, len: int) -> bool {
    &&& header.prefix == prefix
    &&& header.topic == topic
    &&& forall|i: int| 0 <= i < 4 ==> #[trigger] header.call_id@[i] == 0
    &&& len < 0x1_0000_0000 ==> len == header.len@[0] * 0x100_0000 + header.len@[1] * 0x1_0000
        + header.len@[2] * 0x100 + header.len@[3]
}

proof fn lemma_announces(header: RequestHeader, prefix: Prefix, topic: Topic, len: usize)
    requires
        is_header(header, prefix, topic, len),
    ensures
        announces(header, prefix, topic, len as int),
{
    let n = len as int;
    if n < 0x1_0000_0000 {
        assert(header.len@[0] == n / 0x100_0000 % 0x100);
        assert(header.len@[1] == n / 0x1_0000 % 0x100);
        assert(header.len@[2] == n / 0x100 % 0x100);
        assert(header.len@[3] == n % 0x100);
    }
}

/// A request to a peer goes over the stream there is, with a header that announces
/// it. Without a stream nobody can be reached. The other members of a group are asked
/// the same way, all of them.
pub proof fn lemma_requests_are_announced<S, X>(
    closest: Vec<NodeId>,
    capacity: usize,
    topic: Topic,
    prefix: Prefix,
    len: usize,
    stream: S,
)
    ensures
        forall|plan: Result<(S, RequestHeader), ChatError<X>>| #[trigger]
            call_ensures(OwnedContext::send_rpc::<S, X>, (topic, prefix, len, Some(stream)), plan)
                ==> (plan matches Ok((to, header)) && to == stream && announces(
                header,
                prefix,
                topic,
                len as int,
            )),
        forall|plan: Result<(S, RequestHeader), ChatError<X>>| #[trigger]
            call_ensures(OwnedContext::send_rpc::<S, X>, (topic, prefix, len, None), plan) ==> (
            plan matches Err(error) && error is NoReplicator),
        forall|context: OwnedContext, plan: Result<(Vec<NodeId>, RequestHeader), ChatError<X>>|
            #[trigger] call_ensures(
                OwnedContext::repl_rpc_low::<X>,
                (&context, &closest, capacity, topic, prefix, len),
                plan,
            ) ==> {
                let rest = closest@.filter(|other: NodeId| other != context.local_peer_id);
                match plan {
                    Ok((peers, header)) => {
                        &&& peers@ == rest
                        &&& rest.len() != capacity
                        &&& announces(header, prefix, topic, len as int)
                    },
                    Err(error) => error is NoReplicator && rest.len() == capacity,
                }
            },
{
    assert forall|plan: Result<(S, RequestHeader), ChatError<X>>| #[trigger]
        call_ensures(
            OwnedContext::send_rpc::<S, X>,
            (topic, prefix, len, Some(stream)),
            plan,
        ) implies (plan matches Ok((to, header)) && to == stream && announces(
        header,
        prefix,
        topic,
        len as int,
    )) by {
        if let Ok((_, header)) = plan {
            lemma_announces(header, prefix, topic, len);
        }
    }
    assert forall|context: OwnedContext, plan: Result<(Vec<NodeId>, RequestHeader), ChatError<X>>|
        #[trigger] call_ensures(
            OwnedContext::repl_rpc_low::<X>,
            (&context, &closest, capacity, topic, prefix, len),
            plan,
        ) implies {
        let rest = closest@.filter(|other: NodeId| other != context.local_peer_id);
        match plan {
            Ok((peers, header)) => {
                &&& peers@ == rest
                &&& rest.len() != capacity
                &&& announces(header, prefix, topic, len as int)
            },
            Err(error) => error is NoReplicator && rest.len() == capacity,
        }
    } by {
        lemma_without_filters(closest@, context.local_peer_id);
        if let Ok((_, header)) = plan {
            lemma_announces(header, prefix, topic, len);
        }
    }
}

/// A reply that is there is taken at once, at any time. One that is not is waited for
/// until `rpc_timeout` milliseconds after the request was sent, and then given up.
pub proof fn lemma_reply_awaited_until_timeout<X>(
    reply: Reply<X>,
    sent: u64,
    now: u64,
    rpc_timeout: u64,
)
    ensures
        forall|step: ReplyStep<X>| #[trigger]
            call_ensures(await_reply::<X>, (Some(reply), sent, now, rpc_timeout), step) ==> step
                == ReplyStep::Done(reply),
        forall|step: ReplyStep<X>| #[trigger]
            call_ensures(await_reply::<X>, (None, sent, now, rpc_timeout), step) ==> match step {
                ReplyStep::Done(reply) => reply is TimedOut && now >= sent + rpc_timeout * 1_000
                    * 1_000,
                ReplyStep::Wait(left) => left > 0 && now + left == sent + rpc_timeout * 1_000
                    * 1_000,
            },
{
}

/// The value of a request is what its reply decodes to, and otherwise the error says
/// what went wrong. The stream waits to be used again exactly where a whole reply came
/// over it and there is room.
pub proof fn lemma_reply_decides<R, X, Decode: FnOnce(Vec<u8>) -> Option<R>>(
    peer: NodeId,
    stream: u64,
    now: u64,
    reply: Reply<X>,
    decode: Decode,
)
    ensures
        forall|context: &mut OwnedContext, outcome: (Result<R, ChatError<X>>, bool)| #[trigger]
            call_ensures(
                OwnedContext::rpc_reply::<R, X, Decode>,
                (context, peer, stream, now, reply, decode),
                outcome,
            ) ==> {
                &&& final(context)@.not_found == context@.not_found
                &&& final(context)@.chat_subs == context@.chat_subs
                &&& final(context)@.profile_subs == context@.profile_subs
                &&& final(context)@.recovering == context@.recovering
                &&& final(context)@.local == context@.local
                &&& match reply {
                    Reply::Body(bytes) => {
                        &&& rightly_recycled(
                            context@.streams,
                            peer,
                            stream,
                            now,
                            final(context)@.streams,
                            outcome.1,
                        )
                        &&& match outcome.0 {
                            Ok(value) => call_ensures(decode, (bytes,), Some(value)),
                            Err(error) => error is InvalidResponse && call_ensures(
                                decode,
                                (bytes,),
                                None,
                            ),
                        }
                    },
                    Reply::Failed(why) => {
                        &&& final(context)@.streams == context@.streams
                        &&& !outcome.1
                        &&& outcome.0 matches Err(ChatError::Other(error)) && error == why
                    },
                    Reply::TimedOut => {
                        &&& final(context)@.streams == context@.streams
                        &&& !outcome.1
                        &&& outcome.0 matches Err(error) && error is Timeout
                    },
                }
            },
{
    assert forall|context: &mut OwnedContext, outcome: (Result<R, ChatError<X>>, bool)| #[trigger]
        call_ensures(
            OwnedContext::rpc_reply::<R, X, Decode>,
            (context, peer, stream, now, reply, decode),
            outcome,
        ) && reply is Body implies rightly_recycled(
        context@.streams,
        peer,
        stream,
        now,
        final(context)@.streams,
        outcome.1,
    ) by {
        lemma_rightly_recycled(context@.streams, peer, stream, now);
    }
}

/// Several replies come to what every peer said, in order, where all of them gave a
/// value, and otherwise to the first error.
pub proof fn lemma_replies_conclude<R, X>(replies: Vec<(NodeId, Result<R, ChatError<X>>)>)
    ensures
        forall|all: Result<Vec<(NodeId, R)>, ChatError<X>>| #[trigger]
            call_ensures(conclude_replies::<R, X>, (replies,), all) ==> match all {
                Ok(values) => {
                    &&& values@.len() == replies@.len()
                    &&& forall|i: int|
                        0 <= i < replies@.len() ==> values@[i].0 == (#[trigger] replies@[i]).0
                            && (replies@[i].1 matches Ok(value) && value == values@[i].1)
                },
                Err(error) => exists|i: int|
                    {
                        &&& 0 <= i < replies@.len()
                        &&& (#[trigger] replies@[i]).1 matches Err(why) && why == error
                        &&& forall|k: int| 0 <= k < i ==> (#[trigger] replies@[k]).1 is Ok
                    },
            },
{
    assert forall|all: Result<Vec<(NodeId, R)>, ChatError<X>>| #[trigger]
        call_ensures(conclude_replies::<R, X>, (replies,), all) && all is Err implies exists|i: int|
        {
            &&& 0 <= i < replies@.len()
            &&& (#[trigger] replies@[i]).1 matches Err(why) && why == all->Err_0
            &&& forall|k: int| 0 <= k < i ==> (#[trigger] replies@[k]).1 is Ok
        } by {
        let error = all->Err_0;
        let i = choose|i: int|
            {
                &&& 0 <= i < replies@.len()
                &&& (#[trigger] replies@[i]).1 == Err::<R, ChatError<X>>(error)
                &&& forall|k: int| 0 <= k < i ==> (#[trigger] replies@[k]).1 is Ok
            };
        assert(replies@[i].1 is Err);
    }
}

/// At first nobody listens, nothing waits and no topic is known to be missing or being
/// recovered.
pub proof fn lemma_starts_empty(local: NodeId, key: TopicKey, id: [u8; 32])
    ensures
        forall|context: OwnedContext| #[trigger]
            call_ensures(OwnedContext::new, (local,), context) ==> {
                &&& context@.local == local
                &&& !context@.not_found.contains(key)
                &&& !context@.recovering.contains(key)
                &&& !context@.chat_subs.contains_key(id)
                &&& !context@.profile_subs.contains_key(id)
                &&& !context@.streams.contains_key(id)
            },
        forall|cache: StreamCache| #[trigger]
            call_ensures(<StreamCache as Default>::default, (), cache) ==> !cache@.contains_key(id),
{
}

} // verus!
