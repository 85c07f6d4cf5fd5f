//! The client node: which onion path carries which request, what waits for a
//! path to open, and who gets a response.
//!
//! Streams, the routing table and the onion layer stay with the caller. They
//! are consulted through closures, and a request that has to be written comes
//! back with the path whose stream it goes to.
//!
//! Where several paths would do, the first one in the order of the walk is taken.
//! The walk starts at the path that came up, was polled or had a message last.

use crate::ids::{contains_id, position_of_topic, same_id, same_topic, NodeId, PathId, Prefix, Topic};
use crate::route;
use std::collections::{HashMap, VecDeque};
use vstd::prelude::*;

verus! {

broadcast use vstd::std_specs::hash::group_hash_axioms;

/// Pairs a response with the request it answers.
pub type RequestId = u32;

/// The procedure a request is for.
#[derive(Clone, Copy, Debug, PartialEq, Eq, Structural)]
pub enum Rpc {
    Subscribe,
    Unsubscribe,
    Raw(Prefix),
}

/// A request as it is written to a stream.
#[derive(Debug)]
pub struct Request {
    pub prefix: Rpc,
    pub id: RequestId,
    pub topic: Option<Topic>,
    pub body: Vec<u8>,
}

/// A request for the members of a topic, or for whichever node is at hand where
/// it has no topic. The response goes to `response`.
pub struct RawOnionRequest<R> {
    pub id: RequestId,
    pub topic: Option<Topic>,
    pub prefix: Prefix,
    pub payload: Vec<u8>,
    pub response: R,
}

/// A wish to be told of everything that happens to a topic, through `channel`.
pub struct SubscriptionInit<C> {
    pub id: RequestId,
    pub topic: Topic,
    pub channel: C,
}

/// What the user interface asks of the node.
pub enum RequestInit<R, C> {
    OnionRequest(RawOnionRequest<R>),
    Subscription(SubscriptionInit<C>),
    EndSubscription(Topic),
    StorageRequest,
    SateliteRequest,
}

impl<R, C> RequestInit<R, C> {
    /// The topic that the request is about.
    pub open spec fn spec_topic(self) -> Option<Topic> {
        match self {
            RequestInit::OnionRequest(req) => req.topic,
            RequestInit::Subscription(sub) => Some(sub.topic),
            RequestInit::EndSubscription(topic) => Some(topic),
            RequestInit::StorageRequest => None,
            RequestInit::SateliteRequest => None,
        }
    }

    /// The topic that the request is about.
    pub fn topic(&self) -> (topic: Option<Topic>)
        ensures
            topic == self.spec_topic(),
    {
        match self {
            RequestInit::OnionRequest(req) => req.topic,
            RequestInit::Subscription(sub) => Some(sub.topic),
            RequestInit::EndSubscription(topic) => Some(*topic),
            RequestInit::StorageRequest => None,
            RequestInit::SateliteRequest => None,
        }
    }

    /// Requests that can wait for a path: those that go to the members of a
    /// topic.
    pub open spec fn can_wait(self) -> bool {
        (self is OnionRequest || self is Subscription) && self.spec_topic() is Some
    }
}

/// An open onion path, the topics it serves and the channels that listen on it.
pub struct Subscription<C> {
    pub id: PathId,
    pub peer_id: NodeId,
    pub topics: Vec<Topic>,
    pub subscriptions: HashMap<RequestId, C>,
}

/// Mathematical contents of a `Subscription`.
#[verifier::ext_equal]
pub struct SubscriptionModel<C> {
    pub id: PathId,
    pub peer_id: NodeId,
    pub topics: Seq<Topic>,
    pub channels: Map<RequestId, C>,
}

impl<C> View for Subscription<C> {
    type V = SubscriptionModel<C>;

    open spec fn view(&self) -> SubscriptionModel<C> {
        SubscriptionModel {
            id: self.id,
            peer_id: self.peer_id,
            topics: self.topics@,
            channels: self.subscriptions@,
        }
    }
}

/// State of the client node. `R` receives one response, `C` a stream of
/// messages, `S` an opened stream.
pub struct Node<R, C, S> {
    subscriptions: Vec<Subscription<C>>,
    pending_chat_requests: HashMap<RequestId, R>,
    pending_topic_search: HashMap<PathId, Vec<RequestInit<R, C>>>,
    pending_streams: VecDeque<(NodeId, RequestId, S)>,
}

/// Mathematical contents of a `Node`.
#[verifier::ext_equal]
pub struct NodeModel<R, C, S> {
    /// The open paths, in the order of the walk.
    pub subs: Seq<SubscriptionModel<C>>,
    pub requests: Map<RequestId, R>,
    pub searches: Map<PathId, Seq<RequestInit<R, C>>>,
    pub streams: Seq<(NodeId, RequestId, S)>,
}

impl<R, C, S> View for Node<R, C, S> {
    type V = NodeModel<R, C, S>;

    closed spec fn view(&self) -> NodeModel<R, C, S> {
        NodeModel {
            subs: self.subscriptions@.map_values(|sub: Subscription<C>| sub@),
            requests: self.pending_chat_requests@,
            searches: self.pending_topic_search@.map_values(|v: Vec<RequestInit<R, C>>| v@),
            streams: self.pending_streams@,
        }
    }
}

/// Whether a path serves a topic. A request without a topic is served by any.
pub open spec fn covers<C>(sub: SubscriptionModel<C>, topic: Option<Topic>) -> bool {
    topic matches Some(topic) ==> sub.topics.contains(topic)
}

/// The first path from `from` on that serves the topic.
pub open spec fn find_covering<C>(
    subs: Seq<SubscriptionModel<C>>,
    topic: Option<Topic>,
    from: int,
) -> Option<int>
    decreases subs.len() - from,
{
    if from >= subs.len() {
        None
    } else if covers(subs[from], topic) {
        Some(from)
    } else {
        find_covering(subs, topic, from + 1)
    }
}

/// The first path from `from` on that ends at one of `peers`.
pub open spec fn find_peer<C>(
    subs: Seq<SubscriptionModel<C>>,
    peers: Seq<NodeId>,
    from: int,
) -> Option<int>
    decreases subs.len() - from,
{
    if from >= subs.len() {
        None
    } else if peers.contains(subs[from].peer_id) {
        Some(from)
    } else {
        find_peer(subs, peers, from + 1)
    }
}

/// What `find_covering` finds is a path that serves the topic, and it finds one
/// wherever there is any.
pub proof fn lemma_find_covering<C>(
    subs: Seq<SubscriptionModel<C>>,
    topic: Option<Topic>,
    from: int,
)
    requires
        0 <= from,
    ensures
        match find_covering(subs, topic, from) {
            Some(i) => {
                &&& from <= i < subs.len()
                &&& covers(subs[i], topic)
                &&& forall|k: int| from <= k < i ==> !covers(#[trigger] subs[k], topic)
            },
            None => forall|k: int| from <= k < subs.len() ==> !covers(#[trigger] subs[k], topic),
        },
    decreases subs.len() - from,
{
    if from < subs.len() && !covers(subs[from], topic) {
        lemma_find_covering(subs, topic, from + 1);
    }
}

/// Whether anything in `waiting` is about `topic`.
pub open spec fn about<R, C>(waiting: Seq<RequestInit<R, C>>, topic: Topic) -> bool {
    exists|i: int| 0 <= i < waiting.len() && (#[trigger] waiting[i]).spec_topic() == Some(topic)
}

/// Whether something that waits for `path` is about `topic`.
pub open spec fn searching<R, C>(
    searches: Map<PathId, Seq<RequestInit<R, C>>>,
    path: PathId,
    topic: Topic,
) -> bool {
    &&& searches.contains_key(path)
    &&& about(searches[path], topic)
}

/// Whether some path is being opened for `topic`.
pub open spec fn search_in_progress<R, C>(
    searches: Map<PathId, Seq<RequestInit<R, C>>>,
    topic: Topic,
) -> bool {
    exists|path: PathId| #[trigger] searching(searches, path, topic)
}

/// Whether some path serves `topic`.
pub open spec fn served<C>(subs: Seq<SubscriptionModel<C>>, topic: Topic) -> bool {
    exists|i: int| 0 <= i < subs.len() && (#[trigger] subs[i]).topics.contains(topic)
}

/// Something waits for every path that is being opened, everything that waits for
/// one path is about one topic, and different paths are opened for different
/// topics.
pub open spec fn searches_apart<R, C>(searches: Map<PathId, Seq<RequestInit<R, C>>>) -> bool {
    &&& forall|path: PathId| #[trigger]
        searches.contains_key(path) ==> searches[path].len() > 0
    &&& forall|path: PathId, i: int|
        searches.contains_key(path) && 0 <= i < searches[path].len() ==> (
        #[trigger] searches[path][i]).spec_topic() is Some && searches[path][i].spec_topic()
            == searches[path][0].spec_topic()
    &&& forall|a: PathId, b: PathId, topic: Topic|
        #![trigger searching(searches, a, topic), searching(searches, b, topic)]
        searching(searches, a, topic) && searching(searches, b, topic) ==> a == b
}

impl<R, C, S> NodeModel<R, C, S> {
    /// At most one path is being opened for a topic, and none for a topic that a
    /// path serves already. Only what can wait for a path waits for one.
    pub open spec fn wf(self) -> bool {
        &&& searches_apart(self.searches)
        &&& forall|path: PathId, i: int|
            self.searches.contains_key(path) && 0 <= i < self.searches[path].len() ==> (
            #[trigger] self.searches[path][i]).can_wait()
        &&& forall|path: PathId, topic: Topic| #[trigger]
            searching(self.searches, path, topic) ==> !served(self.subs, topic)
    }

    /// The state after path `i` has come to serve `topic`.
    pub open spec fn with_topic(self, i: int, topic: Topic) -> NodeModel<R, C, S> {
        let sub = self.subs[i];
        NodeModel {
            subs: self.subs.update(i, SubscriptionModel { topics: sub.topics.push(topic), ..sub }),
            ..self
        }
    }

    /// The state after a request is on its way.
    pub open spec fn with_request(self, req: RawOnionRequest<R>) -> NodeModel<R, C, S> {
        NodeModel { requests: self.requests.insert(req.id, req.response), ..self }
    }

    /// The state after a channel listens on path `i`.
    pub open spec fn with_channel(self, i: int, init: SubscriptionInit<C>) -> NodeModel<R, C, S> {
        let sub = self.subs[i];
        NodeModel {
            subs: self.subs.update(
                i,
                SubscriptionModel { channels: sub.channels.insert(init.id, init.channel), ..sub },
            ),
            ..self
        }
    }

    /// The state after `command` joined those that wait for `path`.
    pub open spec fn with_waiting(self, path: PathId, command: RequestInit<R, C>) -> NodeModel<
        R,
        C,
        S,
    > {
        NodeModel {
            searches: self.searches.insert(path, self.searches[path].push(command)),
            ..self
        }
    }

    /// The state after `path` is being opened for `command`.
    pub open spec fn with_search(self, path: PathId, command: RequestInit<R, C>) -> NodeModel<
        R,
        C,
        S,
    > {
        NodeModel { searches: self.searches.insert(path, seq![command]), ..self }
    }
}

/// `write` is `command` as it goes to the first path that serves its topic.
pub open spec fn is_write<R, C, S>(
    before: NodeModel<R, C, S>,
    command: RequestInit<R, C>,
    write: (PathId, Request),
) -> bool {
    let (path, out) = write;
    &&& path == before.subs[find_covering(before.subs, command.spec_topic(), 0)->0].id
    &&& out.topic == command.spec_topic()
    &&& match command {
        RequestInit::OnionRequest(req) => {
            out.prefix == Rpc::Raw(req.prefix) && out.id == req.id && out.body == req.payload
        },
        RequestInit::Subscription(init) => {
            &&& out.prefix == Rpc::Subscribe
            &&& out.id == init.id
            &&& out.body@ == Seq::<u8>::empty()
        },
        _ => false,
    }
}

/// The state after `command` was written: whoever waits for an answer, or for
/// messages, is noted.
pub open spec fn after_sent<R, C, S>(
    before: NodeModel<R, C, S>,
    command: RequestInit<R, C>,
) -> NodeModel<R, C, S> {
    match command {
        RequestInit::OnionRequest(req) => before.with_request(req),
        RequestInit::Subscription(init) => before.with_channel(
            find_covering(before.subs, command.spec_topic(), 0)->0,
            init,
        ),
        _ => before,
    }
}

/// `command` is about a topic that some path serves, and was written to the
/// first such path.
pub open spec fn sent<R, C, S>(
    before: NodeModel<R, C, S>,
    command: RequestInit<R, C>,
    after: NodeModel<R, C, S>,
    write: Option<(PathId, Request)>,
) -> bool {
    &&& find_covering(before.subs, command.spec_topic(), 0) is Some
    &&& after == after_sent(before, command)
    &&& write matches Some(write) && is_write(before, command, write)
}

/// The state after several commands were written in turn.
pub open spec fn after_all_sent<R, C, S>(
    before: NodeModel<R, C, S>,
    commands: Seq<RequestInit<R, C>>,
) -> NodeModel<R, C, S>
    decreases commands.len(),
{
    if commands.len() == 0 {
        before
    } else {
        after_sent(after_all_sent(before, commands.drop_last()), commands.last())
    }
}

/// `write` is command `k` as it was written when those in front of it had been.
pub open spec fn written_in_turn<R, C, S>(
    before: NodeModel<R, C, S>,
    commands: Seq<RequestInit<R, C>>,
    k: int,
    write: (PathId, Request),
) -> bool {
    let at = after_all_sent(before, commands.take(k));
    &&& find_covering(at.subs, commands[k].spec_topic(), 0) is Some
    &&& is_write(at, commands[k], write)
}

/// Every one of several commands was written, in turn.
pub open spec fn all_sent<R, C, S>(
    before: NodeModel<R, C, S>,
    commands: Seq<RequestInit<R, C>>,
    after: NodeModel<R, C, S>,
    writes: Seq<(PathId, Request)>,
) -> bool {
    &&& writes.len() == commands.len()
    &&& after == after_all_sent(before, commands)
    &&& forall|k: int|
        0 <= k < commands.len() ==> written_in_turn(before, commands, k, #[trigger] writes[k])
}

/// Whether anything in `waiting` is about `topic`.
fn any_about<R, C>(waiting: &Vec<RequestInit<R, C>>, topic: &Topic) -> (found: bool)
    ensures
        found == about(waiting@, *topic),
{
    let mut i: usize = 0;
    while i < waiting.len()
        invariant
            i <= waiting.len(),
            forall|k: int|
                0 <= k < i ==> (#[trigger] waiting@[k]).spec_topic() != Some(*topic),
        decreases waiting.len() - i,
    {
        match waiting[i].topic() {
            Some(other) => {
                if same_topic(&other, topic) {
                    assert(waiting@[i as int].spec_topic() == Some(*topic));
                    return true;
                }
            },
            None => {},
        }
        i = i + 1;
    }
    false
}

impl<R, C, S> Node<R, C, S> {
    /// A node without any path.
    pub fn new() -> (node: Self)
        ensures
            node@.wf(),
            node@.subs == Seq::<SubscriptionModel<C>>::empty(),
            node@.requests == Map::<RequestId, R>::empty(),
            node@.searches == Map::<PathId, Seq<RequestInit<R, C>>>::empty(),
            node@.streams == Seq::<(NodeId, RequestId, S)>::empty(),
    {
        let node = Node {
            subscriptions: Vec::new(),
            pending_chat_requests: HashMap::new(),
            pending_topic_search: HashMap::new(),
            pending_streams: VecDeque::new(),
        };
        assert(node@.subs =~= Seq::<SubscriptionModel<C>>::empty());
        assert(node@.searches =~= Map::<PathId, Seq<RequestInit<R, C>>>::empty());
        node
    }

    /// A node with these paths open, given in the order of the walk.
    pub fn from_paths(paths: Vec<Subscription<C>>) -> (node: Self)
        ensures
            node@.wf(),
            node@ == (NodeModel::<R, C, S> {
                subs: paths@.map_values(|sub: Subscription<C>| sub@),
                requests: Map::empty(),
                searches: Map::empty(),
                streams: Seq::empty(),
            }),
    {
        let node = Node {
            subscriptions: paths,
            pending_chat_requests: HashMap::new(),
            pending_topic_search: HashMap::new(),
            pending_streams: VecDeque::new(),
        };
        assert(node@.searches =~= Map::<PathId, Seq<RequestInit<R, C>>>::empty());
        assert(node@ =~= (NodeModel::<R, C, S> {
            subs: paths@.map_values(|sub: Subscription<C>| sub@),
            requests: Map::empty(),
            searches: Map::empty(),
            streams: Seq::empty(),
        }));
        node
    }

    /// The open paths, in the order of the walk.
    pub fn paths(&self) -> (paths: &Vec<Subscription<C>>)
        ensures
            paths@.map_values(|sub: Subscription<C>| sub@) == self@.subs,
    {
        &self.subscriptions
    }

    /// Whether a response to request `id` is waited for.
    pub fn expects(&self, id: RequestId) -> (expected: bool)
        ensures
            expected == self@.requests.contains_key(id),
    {
        self.pending_chat_requests.contains_key(&id)
    }

    /// The first path that serves `topic`.
    fn covering(&self, topic: &Option<Topic>) -> (at: Option<usize>)
        ensures
            match at {
                Some(i) => i < self.subscriptions@.len() && find_covering(self@.subs, *topic, 0)
                    == Some(i as int),
                None => find_covering(self@.subs, *topic, 0) is None,
            },
    {
        let mut i: usize = 0;
        while i < self.subscriptions.len()
            invariant
                i <= self.subscriptions.len(),
                find_covering(self@.subs, *topic, 0) == find_covering(self@.subs, *topic, i as int),
            decreases self.subscriptions.len() - i,
        {
            assert(self@.subs[i as int] == self.subscriptions@[i as int]@);
            let serves: bool = match topic {
                Some(topic) => match position_of_topic(&self.subscriptions[i].topics, topic) {
                    Some(at) => {
                        assert(self.subscriptions@[i as int].topics@[at as int] == *topic);
                        true
                    },
                    None => false,
                },
                None => true,
            };
            if serves {
                return Some(i);
            }
            i = i + 1;
        }
        None
    }

    /// The first path that ends at one of `peers`.
    fn ending_at(&self, peers: &Vec<NodeId>) -> (at: Option<usize>)
        ensures
            match at {
                Some(i) => i < self.subscriptions@.len() && find_peer(self@.subs, peers@, 0)
                    == Some(i as int),
                None => find_peer(self@.subs, peers@, 0) is None,
            },
    {
        let mut i: usize = 0;
        while i < self.subscriptions.len()
            invariant
                i <= self.subscriptions.len(),
                find_peer(self@.subs, peers@, 0) == find_peer(self@.subs, peers@, i as int),
            decreases self.subscriptions.len() - i,
        {
            assert(self@.subs[i as int] == self.subscriptions@[i as int]@);
            if contains_id(peers, &self.subscriptions[i].peer_id) {
                return Some(i);
            }
            i = i + 1;
        }
        None
    }

    /// The path that is being opened for `topic`.
    fn search_for(&self, topic: &Topic) -> (path: Option<PathId>)
        ensures
            match path {
                Some(path) => searching(self@.searches, path, *topic),
                None => !search_in_progress(self@.searches, *topic),
            },
    {
        for (path, waiting) in it: self.pending_topic_search.iter()
            invariant
                forall|j: int|
                    0 <= j < it.index() ==> !about((#[trigger] it.seq()[j]).1@, *topic),
        {
            if any_about(waiting, topic) {
                assert(it.seq()[it.index()] == (path, waiting));
                assert(self.pending_topic_search@.contains_key(*path));
                assert(self@.searches[*path] == waiting@);
                return Some(*path);
            }
        }
        None
    }
}

/// `command` is about a topic that no path serves. Where a path is already
/// being opened for that topic, the command waits for it. Otherwise, where a
/// path ends at a member of the topic, that path comes to serve the topic and
/// carries the command. Otherwise a path to one of the members is opened and
/// the command waits for it; where there is no member, the command is dropped.
pub open spec fn searched<
    R,
    C,
    S,
    Closest: FnOnce(Topic) -> Vec<NodeId>,
    Open: FnOnce(NodeId) -> PathId,
>(
    before: NodeModel<R, C, S>,
    command: RequestInit<R, C>,
    closest: Closest,
    open_path: Open,
    after: NodeModel<R, C, S>,
    write: Option<(PathId, Request)>,
) -> bool {
    let topic = command.spec_topic()->0;
    if search_in_progress(before.searches, topic) {
        &&& write is None
        &&& exists|path: PathId| #[trigger]
            searching(before.searches, path, topic) && after == before.with_waiting(path, command)
    } else {
        exists|peers: Vec<NodeId>| #[trigger]
            call_ensures(closest, (topic,), peers) && members_found(
                before,
                command,
                peers@,
                open_path,
                after,
                write,
            )
    }
}

/// What becomes of `command` once the members of its topic are known.
pub open spec fn members_found<R, C, S, Open: FnOnce(NodeId) -> PathId>(
    before: NodeModel<R, C, S>,
    command: RequestInit<R, C>,
    peers: Seq<NodeId>,
    open_path: Open,
    after: NodeModel<R, C, S>,
    write: Option<(PathId, Request)>,
) -> bool {
    match find_peer(before.subs, peers, 0) {
        Some(i) => sent(before.with_topic(i, command.spec_topic()->0), command, after, write),
        None => {
            &&& write is None
            &&& if peers.len() == 0 {
                after == before
            } else {
                exists|peer: NodeId, path: PathId|
                    {
                        &&& peers.contains(peer)
                        &&& #[trigger] call_ensures(open_path, (peer,), path)
                        &&& after == before.with_search(path, command)
                    }
            }
        },
    }
}

/// Paths that serve no more topics than before keep the searches in order.
proof fn lemma_no_more_served<R, C, S>(before: NodeModel<R, C, S>, after: NodeModel<R, C, S>)
    requires
        before.wf(),
        after.searches == before.searches,
        forall|topic: Topic| served(after.subs, topic) ==> #[trigger] served(before.subs, topic),
    ensures
        after.wf(),
{
    assert forall|path: PathId, topic: Topic| #[trigger]
        searching(after.searches, path, topic) implies !served(after.subs, topic) by {
        assert(searching(before.searches, path, topic));
        assert(!served(before.subs, topic));
    }
}

/// Writing a command does not change which topics are served.
proof fn lemma_sent_serves_the_same<R, C, S>(
    before: NodeModel<R, C, S>,
    command: RequestInit<R, C>,
)
    requires
        find_covering(before.subs, command.spec_topic(), 0) is Some,
    ensures
        forall|topic: Topic|
            served(after_sent(before, command).subs, topic) ==> #[trigger] served(
                before.subs,
                topic,
            ),
        after_sent(before, command).searches == before.searches,
        after_sent(before, command).subs.len() == before.subs.len(),
        forall|i: int|
            0 <= i < before.subs.len() ==> {
                &&& (#[trigger] after_sent(before, command).subs[i]).topics == before.subs[i].topics
                &&& after_sent(before, command).subs[i].id == before.subs[i].id
            },
{
    let after = after_sent(before, command);
    lemma_find_covering(before.subs, command.spec_topic(), 0);
    assert forall|topic: Topic| served(after.subs, topic) implies #[trigger] served(
        before.subs,
        topic,
    ) by {
        let i = choose|i: int|
            0 <= i < after.subs.len() && (#[trigger] after.subs[i]).topics.contains(topic);
        assert(before.subs[i].topics.contains(topic));
    }
}

/// Writing a command keeps the searches in order.
proof fn lemma_sent_kept<R, C, S>(before: NodeModel<R, C, S>, command: RequestInit<R, C>)
    requires
        before.wf(),
        find_covering(before.subs, command.spec_topic(), 0) is Some,
    ensures
        after_sent(before, command).wf(),
{
    lemma_sent_serves_the_same(before, command);
    lemma_no_more_served(before, after_sent(before, command));
}

/// A path that comes to serve a topic nobody searches for keeps the searches in
/// order.
proof fn lemma_topic_added_kept<R, C, S>(before: NodeModel<R, C, S>, i: int, topic: Topic)
    requires
        before.wf(),
        0 <= i < before.subs.len(),
        !search_in_progress(before.searches, topic),
    ensures
        before.with_topic(i, topic).wf(),
{
    let after = before.with_topic(i, topic);
    assert forall|path: PathId, t: Topic| #[trigger]
        searching(after.searches, path, t) implies !served(after.subs, t) by {
        assert(searching(before.searches, path, t));
        assert(t != topic);
        if served(after.subs, t) {
            let k = choose|k: int|
                0 <= k < after.subs.len() && (#[trigger] after.subs[k]).topics.contains(t);
            let at = choose|at: int|
                0 <= at < after.subs[k].topics.len() && after.subs[k].topics[at] == t;
            assert(before.subs[k].topics[at] == t);
            assert(before.subs[k].topics.contains(t));
        }
    }
}

/// A path that opens for the topic it was searched for takes the search away
/// and keeps the others in order.
proof fn lemma_path_opened_kept<R, C, S>(before: NodeModel<R, C, S>, id: PathId, peer: NodeId)
    requires
        before.wf(),
        before.searches.contains_key(id),
    ensures
        path_opened(before, id, peer).wf(),
{
    let after = path_opened(before, id, peer);
    let own = before.searches[id][0].spec_topic()->0;
    assert(before.searches[id][0].can_wait());
    assert(searching(before.searches, id, own));
    assert forall|p: PathId, t: Topic| #[trigger]
        searching(after.searches, p, t) implies searching(before.searches, p, t) && !served(
        after.subs,
        t,
    ) by {
        assert(searching(before.searches, p, t));
        assert(t != own);
        if served(after.subs, t) {
            let k = choose|k: int|
                0 <= k < after.subs.len() && (#[trigger] after.subs[k]).topics.contains(t);
            if k > 0 {
                assert(after.subs[k] == before.subs[k - 1]);
                assert(before.subs[k - 1].topics.contains(t));
            }
        }
    }
}

/// No path serves a topic that `find_covering` finds none for.
proof fn lemma_not_served<C>(subs: Seq<SubscriptionModel<C>>, topic: Topic)
    ensures
        find_covering(subs, Some(topic), 0) is None <==> !served(subs, topic),
{
    lemma_find_covering(subs, Some(topic), 0);
    if find_covering(subs, Some(topic), 0) is Some {
        let i = find_covering(subs, Some(topic), 0)->0;
        assert(subs[i].topics.contains(topic));
    } else {
        assert forall|i: int| 0 <= i < subs.len() implies !(#[trigger] subs[i]).topics.contains(
            topic,
        ) by {
            assert(!covers(subs[i], Some(topic)));
        }
    }
}

/// Opening a path for a topic that is not searched for, and adding to a search,
/// keep the searches apart.
proof fn lemma_searches_stay_apart<R, C, S>(
    before: NodeModel<R, C, S>,
    command: RequestInit<R, C>,
    path: PathId,
)
    requires
        searches_apart(before.searches),
        command.spec_topic() is Some,
    ensures
        searching(before.searches, path, command.spec_topic()->0) ==> {
            &&& searches_apart(before.with_waiting(path, command).searches)
            &&& forall|p: PathId, t: Topic| #[trigger]
                searching(before.with_waiting(path, command).searches, p, t) ==> searching(
                    before.searches,
                    p,
                    t,
                )
        },
        !search_in_progress(before.searches, command.spec_topic()->0) ==> {
            &&& searches_apart(before.with_search(path, command).searches)
            &&& forall|p: PathId, t: Topic| #[trigger]
                searching(before.with_search(path, command).searches, p, t) ==> t
                    == command.spec_topic()->0 || searching(before.searches, p, t)
        },
{
    let topic = command.spec_topic()->0;
    if searching(before.searches, path, topic) {
        let after = before.with_waiting(path, command);
        assert(before.searches[path][0].spec_topic() == Some(topic));
        assert forall|p: PathId, t: Topic| #[trigger] searching(after.searches, p, t) implies
            searching(before.searches, p, t) by {
            if p == path {
                let i = choose|i: int|
                    0 <= i < after.searches[p].len() && (
                    #[trigger] after.searches[p][i]).spec_topic() == Some(t);
                if i < before.searches[p].len() {
                    assert(before.searches[p][i].spec_topic() == Some(t));
                } else {
                    assert(t == topic);
                }
            }
        }
    }
    if !search_in_progress(before.searches, topic) {
        let after = before.with_search(path, command);
        assert forall|p: PathId, t: Topic| #[trigger] searching(after.searches, p, t) implies if p
            == path {
            t == topic
        } else {
            searching(before.searches, p, t)
        } by {}
        assert forall|a: PathId, b: PathId, t: Topic|
            #![trigger searching(after.searches, a, t), searching(after.searches, b, t)]
            searching(after.searches, a, t) && searching(after.searches, b, t) implies a == b by {
            if a != b {
                if a == path {
                    assert(searching(before.searches, b, topic));
                } else if b == path {
                    assert(searching(before.searches, a, topic));
                }
            }
        }
    }
}

/// As `lemma_searches_stay_apart`, for the whole of what a node keeps.
proof fn lemma_searches_kept<R, C, S>(
    before: NodeModel<R, C, S>,
    command: RequestInit<R, C>,
    path: PathId,
)
    requires
        before.wf(),
        command.can_wait(),
        !served(before.subs, command.spec_topic()->0),
    ensures
        searching(before.searches, path, command.spec_topic()->0) ==> before.with_waiting(
            path,
            command,
        ).wf(),
        !search_in_progress(before.searches, command.spec_topic()->0) ==> before.with_search(
            path,
            command,
        ).wf(),
{
    lemma_searches_stay_apart(before, command, path);
}

/// What a search for the topic of `command` may ask of the outside. The members
/// of the topic are looked up where no path is being opened for it, and a path is
/// opened to one of them where no path ends at any.
pub open spec fn search_allowed<
    R,
    C,
    S,
    Closest: FnOnce(Topic) -> Vec<NodeId>,
    Open: FnOnce(NodeId) -> PathId,
>(
    before: NodeModel<R, C, S>,
    command: RequestInit<R, C>,
    closest: Closest,
    open_path: Open,
) -> bool {
    let topic = command.spec_topic()->0;
    !search_in_progress(before.searches, topic) ==> {
        &&& call_requires(closest, (topic,))
        &&& forall|peers: Vec<NodeId>, peer: NodeId|
            {
                &&& call_ensures(closest, (topic,), peers)
                &&& find_peer(before.subs, peers@, 0) is None
                &&& #[trigger] peers@.contains(peer)
            } ==> call_requires(open_path, (peer,))
    }
}

impl<R, C, S> Node<R, C, S> {
    /// Writes a request to the first path that serves its topic. Where there
    /// is none, the request comes back.
    fn send(&mut self, command: RequestInit<R, C>) -> (write: Result<
        (PathId, Request),
        RequestInit<R, C>,
    >)
        requires
            command is OnionRequest || command is Subscription,
        ensures
            old(self)@.wf() ==> final(self)@.wf(),
            match write {
                Ok(write) => sent(old(self)@, command, final(self)@, Some(write)),
                Err(back) => {
                    &&& back == command
                    &&& find_covering(old(self)@.subs, command.spec_topic(), 0) is None
                    &&& final(self)@ == old(self)@
                },
            },
    {
        let ghost before = self@;
        let topic: Option<Topic> = command.topic();
        let at: usize = match self.covering(&topic) {
            Some(at) => at,
            None => {
                return Err(command);
            },
        };
        assert(self@.subs[at as int] == self.subscriptions@[at as int]@);
        proof {
            if before.wf() {
                lemma_sent_kept(before, command);
            }
        }
        match command {
            RequestInit::OnionRequest(req) => {
                let RawOnionRequest { id, topic, prefix, payload, response } = req;
                self.pending_chat_requests.insert(id, response);
                assert(self@ =~= before.with_request(req));
                Ok(
                    (
                        self.subscriptions[at].id,
                        Request { prefix: Rpc::Raw(prefix), id, topic, body: payload },
                    ),
                )
            },
            RequestInit::Subscription(init) => {
                let SubscriptionInit { id, topic, channel } = init;
                let sub = &mut self.subscriptions[at];
                sub.subscriptions.insert(id, channel);
                let path: PathId = sub.id;
                assert(self@.subs =~= before.with_channel(at as int, init).subs);
                assert(self@ =~= before.with_channel(at as int, init));
                Ok(
                    (
                        path,
                        Request {
                            prefix: Rpc::Subscribe,
                            id,
                            topic: Some(topic),
                            body: Vec::new(),
                        },
                    ),
                )
            },
            _ => Err(command),
        }
    }

    /// Finds a path for a command for whose topic none was found. Nothing is asked of
    /// the outside while a path is being opened for the topic, and no path is opened
    /// where one ends at a member.
    pub fn handle_topic_search<Closest: FnOnce(Topic) -> Vec<NodeId>, Open: FnOnce(NodeId) -> PathId>(
        &mut self,
        command: RequestInit<R, C>,
        closest: Closest,
        open_path: Open,
    ) -> (write: Option<(PathId, Request)>)
        requires
            searches_apart(old(self)@.searches),
            command.can_wait(),
            search_allowed(old(self)@, command, closest, open_path),
        ensures
            searches_apart(final(self)@.searches),
            old(self)@.wf() && !served(old(self)@.subs, command.spec_topic()->0)
                ==> final(self)@.wf(),
            searched(old(self)@, command, closest, open_path, final(self)@, write),
    {
        let ghost before = self@;
        let ghost asked = command;
        let topic: Topic = match command.topic() {
            Some(topic) => topic,
            None => {
                return None;
            },
        };
        match self.search_for(&topic) {
            Some(path) => {
                proof {
                    lemma_searches_stay_apart(before, asked, path);
                    if before.wf() && !served(before.subs, topic) {
                        lemma_searches_kept(before, asked, path);
                    }
                }
                assert(self.pending_topic_search@.contains_key(path));
                match self.pending_topic_search.remove(&path) {
                    Some(mut waiting) => {
                        waiting.push(command);
                        self.pending_topic_search.insert(path, waiting);
                    },
                    None => {},
                }
                assert(self@.searches =~= before.with_waiting(path, asked).searches);
                assert(self@ =~= before.with_waiting(path, asked));
                return None;
            },
            None => {},
        }
        let peers: Vec<NodeId> = closest(topic);
        assert(call_ensures(closest, (topic,), peers));
        match self.ending_at(&peers) {
            Some(at) => {
                assert(self@.subs[at as int] == self.subscriptions@[at as int]@);
                let sub = &mut self.subscriptions[at];
                sub.topics.push(topic);
                assert(self@.subs =~= before.with_topic(at as int, topic).subs);
                assert(self@ =~= before.with_topic(at as int, topic));
                proof {
                    if before.wf() {
                        lemma_topic_added_kept(before, at as int, topic);
                    }
                    let subs = self@.subs;
                    lemma_find_covering(subs, Some(topic), 0);
                    assert(subs[at as int].topics.last() == topic);
                    assert(covers(subs[at as int], Some(topic)));
                }
                match self.send(command) {
                    Ok(write) => Some(write),
                    Err(_) => None,
                }
            },
            None => {
                match route::pick_peer(&peers) {
                    Some(peer) => {
                        let path: PathId = open_path(peer);
                        let mut waiting: Vec<RequestInit<R, C>> = Vec::new();
                        waiting.push(command);
                        self.pending_topic_search.insert(path, waiting);
                        proof {
                            lemma_searches_stay_apart(before, asked, path);
                            if before.wf() && !served(before.subs, topic) {
                                lemma_searches_kept(before, asked, path);
                            }
                            assert(waiting@ =~= seq![asked]);
                            assert(self@.searches =~= before.with_search(path, asked).searches);
                            assert(self@ =~= before.with_search(path, asked));
                            assert(call_ensures(open_path, (peer,), path));
                        }
                        None
                    },
                    None => None,
                }
            },
        }
    }
}

/// The first place from `from` on where `topic` stands.
pub open spec fn first_topic(topics: Seq<Topic>, topic: Topic, from: int) -> Option<int>
    decreases topics.len() - from,
{
    if from >= topics.len() {
        None
    } else if topics[from] == topic {
        Some(from)
    } else {
        first_topic(topics, topic, from + 1)
    }
}

proof fn lemma_first_topic(topics: Seq<Topic>, topic: Topic, from: int, at: int)
    requires
        0 <= from <= at < topics.len(),
        topics[at] == topic,
        forall|k: int| from <= k < at ==> topics[k] != topic,
    ensures
        first_topic(topics, topic, from) == Some(at),
    decreases at - from,
{
    if from < at {
        lemma_first_topic(topics, topic, from + 1, at);
    }
}

proof fn lemma_first_topic_bounds(topics: Seq<Topic>, topic: Topic, from: int)
    requires
        0 <= from,
    ensures
        first_topic(topics, topic, from) matches Some(at) ==> from <= at < topics.len(),
    decreases topics.len() - from,
{
    if from < topics.len() {
        lemma_first_topic_bounds(topics, topic, from + 1);
    }
}

/// Takes the first occurrence of `topic` out; the last topic takes its place.
pub open spec fn without_topic(topics: Seq<Topic>, topic: Topic) -> Seq<Topic> {
    match first_topic(topics, topic, 0) {
        Some(at) => topics.update(at, topics.last()).drop_last(),
        None => topics,
    }
}

/// The first path that serves `topic` is told so and no longer serves it. Where
/// no path does, nothing happens.
pub open spec fn ended<R, C, S>(
    before: NodeModel<R, C, S>,
    topic: Topic,
    fresh: RequestId,
    after: NodeModel<R, C, S>,
    write: Option<(PathId, Request)>,
) -> bool {
    match find_covering(before.subs, Some(topic), 0) {
        Some(i) => {
            let sub = before.subs[i];
            &&& after == NodeModel {
                subs: before.subs.update(
                    i,
                    SubscriptionModel { topics: without_topic(sub.topics, topic), ..sub },
                ),
                ..before
            }
            &&& write matches Some((path, out)) && {
                &&& path == sub.id
                &&& out.prefix == Rpc::Unsubscribe
                &&& out.id == fresh
                &&& out.topic == Some(topic)
                &&& out.body@ == Seq::<u8>::empty()
            }
        },
        None => after == before && write is None,
    }
}

proof fn lemma_ended_kept<R, C, S>(before: NodeModel<R, C, S>, i: int, topic: Topic)
    requires
        before.wf(),
        0 <= i < before.subs.len(),
        before.subs[i].topics.contains(topic),
    ensures
        (NodeModel::<R, C, S> {
            subs: before.subs.update(
                i,
                SubscriptionModel {
                    topics: without_topic(before.subs[i].topics, topic),
                    ..before.subs[i]
                },
            ),
            ..before
        }).wf(),
{
    let now = before.subs[i];
    let less = without_topic(now.topics, topic);
    let after = NodeModel::<R, C, S> {
        subs: before.subs.update(i, SubscriptionModel { topics: less, ..now }),
        ..before
    };
    lemma_first_topic_bounds(now.topics, topic, 0);
    assert forall|t: Topic| served(after.subs, t) implies #[trigger] served(before.subs, t) by {
        let k = choose|k: int|
            0 <= k < after.subs.len() && (#[trigger] after.subs[k]).topics.contains(t);
        let at = choose|at: int|
            0 <= at < after.subs[k].topics.len() && after.subs[k].topics[at] == t;
        if k == i {
            assert(less[at] == now.topics[at] || less[at] == now.topics.last());
        }
        assert(before.subs[k].topics.contains(t));
    }
    lemma_no_more_served(before, after);
}

/// A request or a subscription goes to the first path that serves its topic,
/// or starts a search for one.
pub open spec fn handled<
    R,
    C,
    S,
    Closest: FnOnce(Topic) -> Vec<NodeId>,
    Open: FnOnce(NodeId) -> PathId,
>(
    before: NodeModel<R, C, S>,
    command: RequestInit<R, C>,
    closest: Closest,
    open_path: Open,
    after: NodeModel<R, C, S>,
    write: Option<(PathId, Request)>,
) -> bool {
    if find_covering(before.subs, command.spec_topic(), 0) is Some {
        sent(before, command, after, write)
    } else {
        searched(before, command, closest, open_path, after, write)
    }
}

impl<R, C, S> Node<R, C, S> {
    /// Sends a request to the members of its topic, opening a path to them
    /// where needed. A request without a topic needs some open path.
    pub fn onion_request<Closest: FnOnce(Topic) -> Vec<NodeId>, Open: FnOnce(NodeId) -> PathId>(
        &mut self,
        req: RawOnionRequest<R>,
        closest: Closest,
        open_path: Open,
    ) -> (write: Option<(PathId, Request)>)
        requires
            old(self)@.wf(),
            req.topic is Some || old(self)@.subs.len() > 0,
            find_covering(old(self)@.subs, req.topic, 0) is None ==> search_allowed(
                old(self)@,
                RequestInit::OnionRequest(req),
                closest,
                open_path,
            ),
        ensures
            final(self)@.wf(),
            handled(
                old(self)@,
                RequestInit::OnionRequest(req),
                closest,
                open_path,
                final(self)@,
                write,
            ),
    {
        match self.send(RequestInit::OnionRequest(req)) {
            Ok(write) => Some(write),
            Err(command) => {
                proof {
                    assert(req.topic is None ==> covers(self@.subs[0], req.topic));
                    lemma_not_served(self@.subs, req.topic->0);
                }
                self.handle_topic_search(command, closest, open_path)
            },
        }
    }

    /// Subscribes to a topic, opening a path to its members where needed.
    pub fn subscription_request<
        Closest: FnOnce(Topic) -> Vec<NodeId>,
        Open: FnOnce(NodeId) -> PathId,
    >(&mut self, sub: SubscriptionInit<C>, closest: Closest, open_path: Open) -> (write: Option<
        (PathId, Request),
    >)
        requires
            old(self)@.wf(),
            find_covering(old(self)@.subs, Some(sub.topic), 0) is None ==> search_allowed(
                old(self)@,
                RequestInit::Subscription(sub),
                closest,
                open_path,
            ),
        ensures
            final(self)@.wf(),
            handled(
                old(self)@,
                RequestInit::Subscription(sub),
                closest,
                open_path,
                final(self)@,
                write,
            ),
    {
        match self.send(RequestInit::Subscription(sub)) {
            Ok(write) => Some(write),
            Err(command) => {
                proof {
                    lemma_not_served(self@.subs, sub.topic);
                }
                self.handle_topic_search(command, closest, open_path)
            },
        }
    }

    /// Ends the subscription to a topic. `fresh` numbers the request.
    pub fn subscription_end(&mut self, topic: Topic, fresh: RequestId) -> (write: Option<
        (PathId, Request),
    >)
        requires
            old(self)@.wf(),
        ensures
            final(self)@.wf(),
            ended(old(self)@, topic, fresh, final(self)@, write),
    {
        let ghost before = self@;
        match self.covering(&Some(topic)) {
            Some(at) => {
                proof {
                    lemma_find_covering(before.subs, Some(topic), 0);
                    assert(before.subs[at as int] == self.subscriptions@[at as int]@);
                }
                let sub = &mut self.subscriptions[at];
                match position_of_topic(&sub.topics, &topic) {
                    Some(index) => {
                        proof {
                            lemma_first_topic(sub.topics@, topic, 0, index as int);
                        }
                        sub.topics.swap_remove(index);
                    },
                    None => {},
                }
                let path: PathId = sub.id;
                proof {
                    let now = before.subs[at as int];
                    let after = NodeModel::<R, C, S> {
                        subs: before.subs.update(
                            at as int,
                            SubscriptionModel { topics: without_topic(now.topics, topic), ..now },
                        ),
                        ..before
                    };
                    assert(self@.subs =~= after.subs);
                    assert(self@ =~= after);
                    lemma_ended_kept(before, at as int, topic);
                }
                Some(
                    (
                        path,
                        Request {
                            prefix: Rpc::Unsubscribe,
                            id: fresh,
                            topic: Some(topic),
                            body: Vec::new(),
                        },
                    ),
                )
            },
            None => None,
        }
    }

    /// Carries out what the user interface asks for. `fresh` numbers a request
    /// that has no number yet. Storage and satelite requests are not served.
    pub fn command<Closest: FnOnce(Topic) -> Vec<NodeId>, Open: FnOnce(NodeId) -> PathId>(
        &mut self,
        command: RequestInit<R, C>,
        fresh: RequestId,
        closest: Closest,
        open_path: Open,
    ) -> (write: Option<(PathId, Request)>)
        requires
            old(self)@.wf(),
            command is OnionRequest ==> command.spec_topic() is Some || old(self)@.subs.len() > 0,
            (command is OnionRequest || command is Subscription) && find_covering(
                old(self)@.subs,
                command.spec_topic(),
                0,
            ) is None ==> search_allowed(old(self)@, command, closest, open_path),
        ensures
            final(self)@.wf(),
            match command {
                RequestInit::OnionRequest(_) | RequestInit::Subscription(_) => handled(
                    old(self)@,
                    command,
                    closest,
                    open_path,
                    final(self)@,
                    write,
                ),
                RequestInit::EndSubscription(topic) => ended(
                    old(self)@,
                    topic,
                    fresh,
                    final(self)@,
                    write,
                ),
                RequestInit::StorageRequest | RequestInit::SateliteRequest => {
                    final(self)@ == old(self)@ && write is None
                },
            },
    {
        match command {
            RequestInit::OnionRequest(req) => self.onion_request(req, closest, open_path),
            RequestInit::Subscription(sub) => self.subscription_request(sub, closest, open_path),
            RequestInit::EndSubscription(topic) => self.subscription_end(topic, fresh),
            RequestInit::StorageRequest => None,
            RequestInit::SateliteRequest => None,
        }
    }

    /// What waits for which path.
    pub fn pending_topic_search(&self) -> (searches: &HashMap<PathId, Vec<RequestInit<R, C>>>)
        ensures
            searches@.map_values(|v: Vec<RequestInit<R, C>>| v@) == self@.searches,
    {
        &self.pending_topic_search
    }
}

/// The state right after a path to `peer` opened for what waited for it. It is the
/// first in the walk.
pub open spec fn path_opened<R, C, S>(
    before: NodeModel<R, C, S>,
    id: PathId,
    peer: NodeId,
) -> NodeModel<R, C, S> {
    NodeModel {
        subs: seq![
            SubscriptionModel {
                id,
                peer_id: peer,
                topics: seq![before.searches[id][0].spec_topic()->0],
                channels: Map::empty(),
            },
        ] + before.subs,
        searches: before.searches.remove(id),
        ..before
    }
}

/// The last place below `upto` that waits for a stream to `peer`.
pub open spec fn last_stream<S>(
    streams: Seq<(NodeId, RequestId, S)>,
    peer: NodeId,
    upto: int,
) -> Option<int>
    decreases upto,
{
    if upto <= 0 {
        None
    } else if streams[upto - 1].0 == peer {
        Some(upto - 1)
    } else {
        last_stream(streams, peer, upto - 1)
    }
}

/// The first path from `from` on with the number `id`.
pub open spec fn find_path<C>(
    subs: Seq<SubscriptionModel<C>>,
    id: PathId,
    from: int,
) -> Option<int>
    decreases subs.len() - from,
{
    if from >= subs.len() {
        None
    } else if subs[from].id == id {
        Some(from)
    } else {
        find_path(subs, id, from + 1)
    }
}

/// The first path from `from` on that has a channel for `call`.
pub open spec fn find_listener<C>(
    subs: Seq<SubscriptionModel<C>>,
    call: RequestId,
    from: int,
) -> Option<int>
    decreases subs.len() - from,
{
    if from >= subs.len() {
        None
    } else if subs[from].channels.contains_key(call) {
        Some(from)
    } else {
        find_listener(subs, call, from + 1)
    }
}

impl<R, C, S> NodeModel<R, C, S> {
    /// The state after the first channel for `call` was dropped.
    pub open spec fn without_listener(self, call: RequestId) -> NodeModel<R, C, S> {
        match find_listener(self.subs, call, 0) {
            Some(i) => {
                let sub = self.subs[i];
                NodeModel {
                    subs: self.subs.update(
                        i,
                        SubscriptionModel { channels: sub.channels.remove(call), ..sub },
                    ),
                    ..self
                }
            },
            None => self,
        }
    }
}

/// The paths with path `id` first in the walk. The others keep their order.
pub open spec fn walked_from<C>(subs: Seq<SubscriptionModel<C>>, id: PathId) -> Seq<
    SubscriptionModel<C>,
> {
    match find_path(subs, id, 0) {
        Some(i) => seq![subs[i]] + subs.remove(i),
        None => subs,
    }
}

impl<R, C, S> NodeModel<R, C, S> {
    /// The state in which the walk starts at path `id`.
    pub open spec fn with_first(self, id: PathId) -> NodeModel<R, C, S> {
        NodeModel { subs: walked_from(self.subs, id), ..self }
    }

    /// The state after the first path with the number `id` is gone.
    pub open spec fn without_path(self, id: PathId) -> NodeModel<R, C, S> {
        match find_path(self.subs, id, 0) {
            Some(i) => NodeModel { subs: self.subs.remove(i), ..self },
            None => self,
        }
    }
}

/// The order of the walk says nothing of what is served.
proof fn lemma_with_first_kept<R, C, S>(before: NodeModel<R, C, S>, id: PathId)
    ensures
        before.wf() ==> before.with_first(id).wf(),
        match find_path(before.subs, id, 0) {
            Some(i) => {
                &&& 0 <= i < before.subs.len()
                &&& before.subs[i].id == id
                &&& before.with_first(id).subs.len() == before.subs.len()
                &&& before.with_first(id).subs[0] == before.subs[i]
                &&& find_path(before.with_first(id).subs, id, 0) == Some(0int)
            },
            None => find_path(before.with_first(id).subs, id, 0) is None,
        },
{
    let after = before.with_first(id);
    lemma_path_found(before.subs, id, 0);
    if find_path(before.subs, id, 0) is Some {
        let i = find_path(before.subs, id, 0)->0;
        assert forall|t: Topic| served(after.subs, t) implies #[trigger] served(before.subs, t) by {
            let k = choose|k: int|
                0 <= k < after.subs.len() && (#[trigger] after.subs[k]).topics.contains(t);
            let at = if k == 0 {
                i
            } else if k <= i {
                k - 1
            } else {
                k
            };
            assert(after.subs[k] == before.subs[at]);
            assert(before.subs[at].topics.contains(t));
        }
        if before.wf() {
            lemma_no_more_served(before, after);
        }
    }
}

/// A path that ends keeps the searches in order.
proof fn lemma_without_path_kept<R, C, S>(before: NodeModel<R, C, S>, i: int)
    requires
        before.wf(),
        0 <= i < before.subs.len(),
    ensures
        (NodeModel::<R, C, S> { subs: before.subs.remove(i), ..before }).wf(),
{
    let after = NodeModel::<R, C, S> { subs: before.subs.remove(i), ..before };
    assert forall|t: Topic| served(after.subs, t) implies #[trigger] served(before.subs, t) by {
        let k = choose|k: int|
            0 <= k < after.subs.len() && (#[trigger] after.subs[k]).topics.contains(t);
        let at = if k < i {
            k
        } else {
            k + 1
        };
        assert(before.subs[at].topics.contains(t));
    }
    lemma_no_more_served(before, after);
}

proof fn lemma_find_listener<C>(subs: Seq<SubscriptionModel<C>>, call: RequestId, from: int)
    requires
        0 <= from,
    ensures
        find_listener(subs, call, from) matches Some(i) ==> from <= i < subs.len()
            && subs[i].channels.contains_key(call),
    decreases subs.len() - from,
{
    if from < subs.len() && !subs[from].channels.contains_key(call) {
        lemma_find_listener(subs, call, from + 1);
    }
}

/// Where paths have different numbers, `find_path` finds each by its own.
proof fn lemma_find_path<C>(subs: Seq<SubscriptionModel<C>>, from: int, at: int)
    requires
        0 <= from <= at < subs.len(),
        distinct_paths(subs),
    ensures
        find_path(subs, subs[at].id, from) == Some(at),
    decreases at - from,
{
    if from < at {
        lemma_find_path(subs, from + 1, at);
    }
}

/// No two paths have the same number.
pub open spec fn distinct_paths<C>(subs: Seq<SubscriptionModel<C>>) -> bool {
    forall|i: int, j: int|
        0 <= i < subs.len() && 0 <= j < subs.len() && i != j ==> (#[trigger] subs[i]).id != (
        #[trigger] subs[j]).id
}

/// Dropping a channel keeps the searches in order.
proof fn lemma_without_listener_kept<R, C, S>(before: NodeModel<R, C, S>, call: RequestId)
    requires
        before.wf(),
    ensures
        before.without_listener(call).wf(),
{
    let after = before.without_listener(call);
    lemma_find_listener(before.subs, call, 0);
    assert forall|t: Topic| served(after.subs, t) implies #[trigger] served(before.subs, t) by {
        let k = choose|k: int|
            0 <= k < after.subs.len() && (#[trigger] after.subs[k]).topics.contains(t);
        assert(before.subs[k].topics.contains(t));
    }
    lemma_no_more_served(before, after);
}

/// The channel that a message for `call` over path `id` is for: the one that
/// listens for it on this very path, where no request waits for it.
pub open spec fn listener_of<R, C, S>(
    before: NodeModel<R, C, S>,
    id: PathId,
    call: RequestId,
) -> Option<C> {
    match find_path(before.subs, id, 0) {
        Some(i) if !before.requests.contains_key(call)
            && before.subs[i].channels.contains_key(call) => Some(before.subs[i].channels[call]),
        _ => None,
    }
}

/// A message `content` for `call` came in over path `id`, at which the walk starts
/// from now on. A request that waits for it gets it. Otherwise the channel that
/// listens for it on this very path does; a channel that does not take it is
/// dropped.
pub open spec fn responded<R, C, S, TrySend: FnOnce(&C, Vec<u8>) -> bool>(
    before: NodeModel<R, C, S>,
    id: PathId,
    call: RequestId,
    content: Vec<u8>,
    try_send: TrySend,
    after: NodeModel<R, C, S>,
    answer: Option<(R, Vec<u8>)>,
) -> bool {
    let first = before.with_first(id);
    if before.requests.contains_key(call) {
        &&& answer == Some((before.requests[call], content))
        &&& after == NodeModel { requests: before.requests.remove(call), ..first }
    } else {
        &&& answer is None
        &&& match listener_of(before, id, call) {
            Some(channel) => exists|taken: bool| #[trigger]
                call_ensures(try_send, (&channel, content), taken) && after == if taken {
                    first
                } else {
                    first.without_listener(call)
                },
            None => after == first,
        }
    }
}

impl<R, C, S> Node<R, C, S> {
    /// An onion path came up, with `stream` the peer at its end, or failed to.
    /// What waited for it is written to it in turn, or is dropped.
    pub fn outbound_stream(&mut self, id: PathId, stream: Option<NodeId>) -> (writes: Vec<
        (PathId, Request),
    >)
        requires
            old(self)@.wf(),
        ensures
            final(self)@.wf(),
            if !old(self)@.searches.contains_key(id) {
                final(self)@ == old(self)@ && writes@.len() == 0
            } else {
                match stream {
                    Some(peer) => all_sent(
                        path_opened(old(self)@, id, peer),
                        old(self)@.searches[id],
                        final(self)@,
                        writes@,
                    ),
                    None => {
                        &&& final(self)@ == (NodeModel {
                            searches: old(self)@.searches.remove(id),
                            ..old(self)@
                        })
                        &&& writes@.len() == 0
                    },
                }
            },
    {
        let ghost before = self@;
        let mut writes: Vec<(PathId, Request)> = Vec::new();
        let waiting: Vec<RequestInit<R, C>> = match self.pending_topic_search.remove(&id) {
            Some(waiting) => waiting,
            None => {
                assert(self@.searches =~= before.searches);
                assert(self@ =~= before);
                return writes;
            },
        };
        assert(self@.searches =~= before.searches.remove(id));
        assert(before.searches.contains_key(id) && before.searches[id] == waiting@);
        proof {
            let cleared = NodeModel::<R, C, S> { searches: before.searches.remove(id), ..before };
            assert forall|p: PathId, t: Topic| #[trigger]
                searching(cleared.searches, p, t) implies searching(before.searches, p, t) by {}
            assert(self@ =~= cleared);
            assert(cleared.wf());
        }
        let peer: NodeId = match stream {
            Some(peer) => peer,
            None => {
                assert(self@ =~= (NodeModel { searches: before.searches.remove(id), ..before }));
                return writes;
            },
        };
        let topic: Topic = match waiting[0].topic() {
            Some(topic) => topic,
            None => {
                return writes;
            },
        };
        let mut topics: Vec<Topic> = Vec::new();
        topics.push(topic);
        self.subscriptions.insert(
            0,
            Subscription { id, peer_id: peer, topics, subscriptions: HashMap::new() },
        );
        let ghost opened = path_opened(before, id, peer);
        proof {
            assert(topics@ =~= seq![topic]);
            assert(self@.subs =~= opened.subs);
            assert(self@ =~= opened);
            lemma_path_opened_kept(before, id, peer);
            assert(opened.subs[0].topics[0] == topic);
        }
        let ghost all = waiting@;
        for command in it: waiting
            invariant
                it.seq() == all,
                writes@.len() == it.index(),
                forall|k: int|
                    0 <= k < all.len() ==> (#[trigger] all[k]).can_wait() && all[k].spec_topic()
                        == Some(topic),
                self@.subs.len() > 0,
                covers(self@.subs[0], Some(topic)),
                self@.wf(),
                self@ == after_all_sent(opened, all.take(it.index() as int)),
                forall|k: int|
                    0 <= k < it.index() ==> written_in_turn(opened, all, k, #[trigger] writes@[k]),
        {
            proof {
                lemma_find_covering(self@.subs, Some(topic), 0);
                assert(all.take(it.index() + 1).drop_last() =~= all.take(it.index() as int));
                assert(all[it.index() as int] == command);
            }
            match self.send(command) {
                Ok(write) => {
                    writes.push(write);
                    assert(written_in_turn(opened, all, it.index() as int, write));
                },
                Err(_) => {},
            }
        }
        assert(all.take(all.len() as int) =~= all);
        writes
    }

    /// Path `id` was polled: the walk starts at it from now on.
    pub fn path_polled(&mut self, id: PathId)
        ensures
            old(self)@.wf() ==> final(self)@.wf(),
            final(self)@ == old(self)@.with_first(id),
    {
        let ghost before = self@;
        proof {
            lemma_with_first_kept(before, id);
        }
        let mut i: usize = 0;
        while i < self.subscriptions.len()
            invariant
                i <= self.subscriptions@.len(),
                self@ == before,
                before == old(self)@,
                before.wf() ==> before.with_first(id).wf(),
                find_path(before.subs, id, 0) == find_path(before.subs, id, i as int),
            decreases self.subscriptions.len() - i,
        {
            assert(before.subs[i as int] == self.subscriptions@[i as int]@);
            if self.subscriptions[i].id == id {
                let path: Subscription<C> = self.subscriptions.remove(i);
                self.subscriptions.insert(0, path);
                assert(self@.subs =~= before.with_first(id).subs);
                assert(self@ =~= before.with_first(id));
                return ;
            }
            i = i + 1;
        }
    }

    /// The stream of path `id` ended: nothing is written to the path any more, and
    /// nothing comes over it. Topics that it alone served are searched for again.
    pub fn path_ended(&mut self, id: PathId)
        requires
            old(self)@.wf(),
        ensures
            final(self)@.wf(),
            final(self)@ == old(self)@.without_path(id),
    {
        let ghost before = self@;
        let mut i: usize = 0;
        while i < self.subscriptions.len()
            invariant
                i <= self.subscriptions@.len(),
                self@ == before,
                before == old(self)@,
                before.wf(),
                find_path(before.subs, id, 0) == find_path(before.subs, id, i as int),
            decreases self.subscriptions.len() - i,
        {
            assert(before.subs[i as int] == self.subscriptions@[i as int]@);
            if self.subscriptions[i].id == id {
                self.subscriptions.remove(i);
                proof {
                    assert(self@.subs =~= before.subs.remove(i as int));
                    assert(self@ =~= before.without_path(id));
                    lemma_without_path_kept(before, i as int);
                }
                return ;
            }
            i = i + 1;
        }
    }

    /// `sender` waits for a stream to `peer`, in front of all others that wait.
    pub fn stream_request(&mut self, peer: NodeId, id: RequestId, sender: S)
        ensures
            old(self)@.wf() ==> final(self)@.wf(),
            final(self)@ == (NodeModel {
                streams: seq![(peer, id, sender)] + old(self)@.streams,
                ..old(self)@
            }),
    {
        let ghost before = self@;
        self.pending_streams.push_front((peer, id, sender));
        assert(self@.streams =~= seq![(peer, id, sender)] + before.streams);
        assert(self@ =~= (NodeModel {
            streams: seq![(peer, id, sender)] + before.streams,
            ..before
        }));
    }

    /// A stream to `peer` came up. Of those that wait for one, the last in the
    /// queue gets it.
    pub fn outgoing_stream(&mut self, peer: NodeId, opened: bool) -> (waiter: Option<
        (RequestId, S),
    >)
        ensures
            old(self)@.wf() ==> final(self)@.wf(),
            match last_stream(old(self)@.streams, peer, old(self)@.streams.len() as int) {
                Some(i) if opened => {
                    let (_, id, sender) = old(self)@.streams[i];
                    &&& waiter == Some((id, sender))
                    &&& final(self)@ == NodeModel {
                        streams: old(self)@.streams.remove(i),
                        ..old(self)@
                    }
                },
                _ => waiter is None && final(self)@ == old(self)@,
            },
    {
        let ghost before = self@;
        if !opened {
            return None;
        }
        let mut i: usize = self.pending_streams.len();
        while i > 0
            invariant
                opened,
                i <= self.pending_streams@.len(),
                self@ == before,
                before == old(self)@,
                last_stream(before.streams, peer, before.streams.len() as int) == last_stream(
                    before.streams,
                    peer,
                    i as int,
                ),
            decreases i,
        {
            i = i - 1;
            if same_id(&self.pending_streams[i].0, &peer) {
                match self.pending_streams.remove(i) {
                    Some((_, id, sender)) => {
                        assert(self@ =~= (NodeModel {
                            streams: before.streams.remove(i as int),
                            ..before
                        }));
                        return Some((id, sender));
                    },
                    None => {
                        return None;
                    },
                }
            }
        }
        None
    }

    /// A message came in over path `id`: the call it belongs to and its content,
    /// where it could be read. The answer to a request comes back together with
    /// whoever waits for it, and is offered to no channel. Any other message is
    /// offered to the one channel it is for, if there is any.
    pub fn subscription_response<TrySend: FnOnce(&C, Vec<u8>) -> bool>(
        &mut self,
        id: PathId,
        message: Option<(RequestId, Vec<u8>)>,
        try_send: TrySend,
    ) -> (answer: Option<(R, Vec<u8>)>)
        requires
            message matches Some((call, content)) ==> (listener_of(old(self)@, id, call) matches Some(
                channel,
            ) ==> call_requires(try_send, (&channel, content))),
        ensures
            old(self)@.wf() ==> final(self)@.wf(),
            match message {
                Some((call, content)) => responded(
                    old(self)@,
                    id,
                    call,
                    content,
                    try_send,
                    final(self)@,
                    answer,
                ),
                None => final(self)@ == old(self)@.with_first(id) && answer is None,
            },
    {
        let ghost given = self@;
        proof {
            lemma_with_first_kept(given, id);
        }
        self.path_polled(id);
        let ghost before = self@;
        let (call, content) = match message {
            Some(message) => message,
            None => {
                return None;
            },
        };
        match self.pending_chat_requests.remove(&call) {
            Some(channel) => {
                assert(self@ =~= (NodeModel { requests: before.requests.remove(call), ..before }));
                return Some((channel, content));
            },
            None => {
                assert(self@.requests =~= before.requests);
                assert(self@ =~= before);
            },
        }
        if self.subscriptions.len() == 0 || self.subscriptions[0].id != id {
            assert(find_path(given.subs, id, 0) is Some ==> before.subs[0].id == id);
            assert(before.subs.len() > 0 ==> before.subs[0] == self.subscriptions@[0]@);
            return None;
        }
        assert(before.subs[0] == self.subscriptions@[0]@);
        assert(find_path(before.subs, id, 0) == Some(0int));
        let taken: bool = match self.subscriptions[0].subscriptions.get(&call) {
            Some(channel) => try_send(channel, content),
            None => {
                return None;
            },
        };
        if !taken {
            proof {
                if before.wf() {
                    lemma_without_listener_kept(before, call);
                }
            }
            let mut j: usize = 0;
            while j < self.subscriptions.len()
                invariant_except_break
                    j <= self.subscriptions@.len(),
                    self@ == before,
                    find_listener(before.subs, call, 0) == find_listener(
                        before.subs,
                        call,
                        j as int,
                    ),
                ensures
                    self@ == before.without_listener(call),
                decreases self.subscriptions.len() - j,
            {
                assert(before.subs[j as int] == self.subscriptions@[j as int]@);
                let sub = &mut self.subscriptions[j];
                let dropped: bool = sub.subscriptions.remove(&call).is_some();
                if dropped {
                    assert(self@.subs =~= before.without_listener(call).subs);
                    assert(self@ =~= before.without_listener(call));
                    break;
                }
                assert(self.subscriptions@[j as int]@ =~= before.subs[j as int]);
                assert(self@.subs =~= before.subs);
                assert(self@ =~= before);
                j = j + 1;
            }
        }
        None
    }
}

/// A response goes to whoever sent the request with its number, whichever path
/// it comes in over, and is then no longer waited for.
pub proof fn lemma_answer_reaches_requester<R, C, S, TrySend: FnOnce(&C, Vec<u8>) -> bool>(
    before: NodeModel<R, C, S>,
    req: RawOnionRequest<R>,
    after: NodeModel<R, C, S>,
    write: Option<(PathId, Request)>,
    path: PathId,
    content: Vec<u8>,
    try_send: TrySend,
    end: NodeModel<R, C, S>,
    answer: Option<(R, Vec<u8>)>,
)
    requires
        sent(before, RequestInit::OnionRequest(req), after, write),
        responded(after, path, req.id, content, try_send, end, answer),
    ensures
        answer == Some((req.response, content)),
        end.requests == before.requests.remove(req.id),
        end.subs == walked_from(before.subs, path),
{
    assert(end.requests =~= before.requests.remove(req.id));
}

/// A message that comes in over the path that a subscription was written to,
/// under the number of the subscription, is offered to its channel. A channel
/// that refuses it is dropped, and no other is.
pub proof fn lemma_message_reaches_subscriber<R, C, S, TrySend: FnOnce(&C, Vec<u8>) -> bool>(
    before: NodeModel<R, C, S>,
    init: SubscriptionInit<C>,
    after: NodeModel<R, C, S>,
    write: (PathId, Request),
    content: Vec<u8>,
    try_send: TrySend,
    end: NodeModel<R, C, S>,
    answer: Option<(R, Vec<u8>)>,
)
    requires
        sent(before, RequestInit::Subscription(init), after, Some(write)),
        distinct_paths(before.subs),
        !before.requests.contains_key(init.id),
        responded(after, write.0, init.id, content, try_send, end, answer),
    ensures
        answer is None,
        exists|taken: bool| #[trigger]
            call_ensures(try_send, (&init.channel, content), taken) && end == if taken {
                after.with_first(write.0)
            } else {
                after.with_first(write.0).without_listener(init.id)
            },
        end.subs.len() > 0,
        end.subs[0].id == write.0,
        end == after.with_first(write.0) || end.subs[0].channels
            == after.with_first(write.0).subs[0].channels.remove(init.id),
{
    let command = RequestInit::<R, C>::Subscription(init);
    let i = find_covering(before.subs, Some(init.topic), 0)->0;
    lemma_find_covering(before.subs, Some(init.topic), 0);
    lemma_sent_serves_the_same(before, command);
    assert(after.subs[i].id == before.subs[i].id);
    assert(distinct_paths(after.subs));
    lemma_find_path(after.subs, 0, i);
    assert(after.subs[i].channels[init.id] == init.channel);
    lemma_with_first_kept(after, write.0);
    let first = after.with_first(write.0);
    assert(first.subs[0].channels.contains_key(init.id));
    assert(find_listener(first.subs, init.id, 0) == Some(0int));
}

/// A command about a topic that the path at the start of the walk serves is written
/// to that path. A path comes to the start of the walk when it is polled.
pub proof fn lemma_polled_path_is_preferred<
    R,
    C,
    S,
    Closest: FnOnce(Topic) -> Vec<NodeId>,
    Open: FnOnce(NodeId) -> PathId,
>(
    before: NodeModel<R, C, S>,
    at: int,
    command: RequestInit<R, C>,
    closest: Closest,
    open_path: Open,
    after: NodeModel<R, C, S>,
    write: Option<(PathId, Request)>,
)
    requires
        0 <= at < before.subs.len(),
        distinct_paths(before.subs),
        covers(before.subs[at], command.spec_topic()),
        handled(
            before.with_first(before.subs[at].id),
            command,
            closest,
            open_path,
            after,
            write,
        ),
    ensures
        write matches Some((to, _)) && to == before.subs[at].id,
{
    lemma_find_path(before.subs, 0, at);
    lemma_with_first_kept(before, before.subs[at].id);
}

/// What waited for a path to open is written to that very path, whatever other
/// paths have opened in the meantime.
pub proof fn lemma_waiting_goes_to_its_path<R, C, S>(
    before: NodeModel<R, C, S>,
    id: PathId,
    peer: NodeId,
    after: NodeModel<R, C, S>,
    writes: Seq<(PathId, Request)>,
)
    requires
        before.wf(),
        before.searches.contains_key(id),
        all_sent(path_opened(before, id, peer), before.searches[id], after, writes),
    ensures
        writes.len() == before.searches[id].len(),
        forall|k: int| 0 <= k < writes.len() ==> (#[trigger] writes[k]).0 == id,
{
    let waiting = before.searches[id];
    let opened = path_opened(before, id, peer);
    let topic = waiting[0].spec_topic()->0;
    assert forall|k: int| 0 <= k < writes.len() implies (#[trigger] writes[k]).0 == id by {
        assert(waiting[k].spec_topic() == Some(topic));
        lemma_all_sent_same_paths(opened, waiting, writes, k);
        let at = after_all_sent(opened, waiting.take(k));
        assert(opened.subs[0].topics[0] == topic);
        assert(at.subs[0].topics == opened.subs[0].topics);
        assert(covers(at.subs[0], Some(topic)));
        assert(written_in_turn(opened, waiting, k, writes[k]));
    }
}

/// Writing commands in turn leaves the paths and the topics they serve alone.
proof fn lemma_all_sent_same_paths<R, C, S>(
    before: NodeModel<R, C, S>,
    commands: Seq<RequestInit<R, C>>,
    writes: Seq<(PathId, Request)>,
    k: int,
)
    requires
        0 <= k <= commands.len(),
        commands.len() == writes.len(),
        forall|j: int|
            0 <= j < commands.len() ==> written_in_turn(before, commands, j, #[trigger] writes[j]),
    ensures
        ({
            let at = after_all_sent(before, commands.take(k));
            &&& at.subs.len() == before.subs.len()
            &&& forall|i: int|
                0 <= i < before.subs.len() ==> {
                    &&& (#[trigger] at.subs[i]).topics == before.subs[i].topics
                    &&& at.subs[i].id == before.subs[i].id
                }
        }),
    decreases k,
{
    if k > 0 {
        lemma_all_sent_same_paths(before, commands, writes, k - 1);
        let at = after_all_sent(before, commands.take(k - 1));
        assert(commands.take(k).drop_last() =~= commands.take(k - 1));
        assert(commands.take(k).last() == commands[k - 1]);
        assert(written_in_turn(before, commands, k - 1, writes[k - 1]));
        lemma_sent_serves_the_same(at, commands[k - 1]);
    }
}

/// A command about a topic that some path serves is written at once, and neither
/// starts a search nor joins one.
pub proof fn lemma_served_topic_is_written_at_once<
    R,
    C,
    S,
    Closest: FnOnce(Topic) -> Vec<NodeId>,
    Open: FnOnce(NodeId) -> PathId,
>(
    before: NodeModel<R, C, S>,
    command: RequestInit<R, C>,
    closest: Closest,
    open_path: Open,
    after: NodeModel<R, C, S>,
    write: Option<(PathId, Request)>,
)
    requires
        command.can_wait(),
        served(before.subs, command.spec_topic()->0),
        handled(before, command, closest, open_path, after, write),
    ensures
        write is Some,
        after.searches == before.searches,
{
    lemma_not_served(before.subs, command.spec_topic()->0);
}

/// At most one path is ever being opened for a topic: a search for whichever topic
/// keeps the searches apart. No list of what waits is empty, all that one list
/// holds is about one topic, and different lists are about different topics.
pub proof fn lemma_one_search_per_topic<
    R,
    C,
    S,
    Closest: FnOnce(Topic) -> Vec<NodeId>,
    Open: FnOnce(NodeId) -> PathId,
>(
    before: NodeModel<R, C, S>,
    command: RequestInit<R, C>,
    closest: Closest,
    open_path: Open,
    after: NodeModel<R, C, S>,
    write: Option<(PathId, Request)>,
)
    requires
        searches_apart(before.searches),
        command.spec_topic() is Some,
        searched(before, command, closest, open_path, after, write),
    ensures
        searches_apart(after.searches),
        forall|path: PathId| #[trigger]
            after.searches.contains_key(path) ==> after.searches[path].len() > 0,
        forall|path: PathId, i: int, j: int|
            after.searches.contains_key(path) && 0 <= i < after.searches[path].len() && 0 <= j
                < after.searches[path].len() ==> (#[trigger] after.searches[path][i]).spec_topic()
                == (#[trigger] after.searches[path][j]).spec_topic(),
        forall|a: PathId, b: PathId|
            a != b && after.searches.contains_key(a) && after.searches.contains_key(b) ==> (
            #[trigger] after.searches[a])[0].spec_topic() != (
            #[trigger] after.searches[b])[0].spec_topic(),
{
    let topic = command.spec_topic()->0;
    if search_in_progress(before.searches, topic) {
        let path = choose|path: PathId| #[trigger]
            searching(before.searches, path, topic) && after == before.with_waiting(path, command);
        lemma_searches_stay_apart(before, command, path);
    } else {
        let peers = choose|peers: Vec<NodeId>| #[trigger]
            call_ensures(closest, (topic,), peers) && members_found(
                before,
                command,
                peers@,
                open_path,
                after,
                write,
            );
        if find_peer(before.subs, peers@, 0) is None && peers@.len() > 0 {
            let (peer, path) = choose|peer: NodeId, path: PathId|
                {
                    &&& peers@.contains(peer)
                    &&& #[trigger] call_ensures(open_path, (peer,), path)
                    &&& after == before.with_search(path, command)
                };
            lemma_searches_stay_apart(before, command, path);
        }
    }
    assert forall|a: PathId, b: PathId|
        a != b && after.searches.contains_key(a) && after.searches.contains_key(b) implies (
    #[trigger] after.searches[a])[0].spec_topic() != (
    #[trigger] after.searches[b])[0].spec_topic() by {
        assert(after.searches[a][0].spec_topic() is Some);
        let t = after.searches[a][0].spec_topic()->0;
        if after.searches[b][0].spec_topic() == Some(t) {
            assert(searching(after.searches, a, t));
            assert(searching(after.searches, b, t));
        }
    }
}

/// What `find_peer` finds is a path that ends at one of `peers`, the first such, and
/// it finds one wherever there is any.
pub proof fn lemma_find_peer<C>(subs: Seq<SubscriptionModel<C>>, peers: Seq<NodeId>, from: int)
    requires
        0 <= from,
    ensures
        match find_peer(subs, peers, from) {
            Some(i) => {
                &&& from <= i < subs.len()
                &&& peers.contains(subs[i].peer_id)
                &&& forall|k: int| from <= k < i ==> !peers.contains((#[trigger] subs[k]).peer_id)
            },
            None => forall|k: int|
                from <= k < subs.len() ==> !peers.contains((#[trigger] subs[k]).peer_id),
        },
    decreases subs.len() - from,
{
    if from < subs.len() && !peers.contains(subs[from].peer_id) {
        lemma_find_peer(subs, peers, from + 1);
    }
}

/// After a path has ended nothing is written to it any more. A command about a topic
/// that no other path serves makes the client search for the topic again.
pub proof fn lemma_ended_path_is_not_used<
    R,
    C,
    S,
    Closest: FnOnce(Topic) -> Vec<NodeId>,
    Open: FnOnce(NodeId) -> PathId,
>(
    before: NodeModel<R, C, S>,
    id: PathId,
    command: RequestInit<R, C>,
    closest: Closest,
    open_path: Open,
    after: NodeModel<R, C, S>,
    write: Option<(PathId, Request)>,
)
    requires
        distinct_paths(before.subs),
        command.can_wait(),
        handled(before.without_path(id), command, closest, open_path, after, write),
    ensures
        write matches Some((to, _)) ==> to != id,
        forall|i: int|
            0 <= i < before.without_path(id).subs.len() ==> (
            #[trigger] before.without_path(id).subs[i]).id != id,
        !served(before.without_path(id).subs, command.spec_topic()->0) ==> searched(
            before.without_path(id),
            command,
            closest,
            open_path,
            after,
            write,
        ),
{
    let left = before.without_path(id);
    let topic = command.spec_topic()->0;
    lemma_path_found(before.subs, id, 0);
    assert forall|i: int| 0 <= i < left.subs.len() implies (#[trigger] left.subs[i]).id != id by {
        match find_path(before.subs, id, 0) {
            Some(at) => {
                let k = if i < at {
                    i
                } else {
                    i + 1
                };
                assert(left.subs[i] == before.subs[k]);
            },
            None => {},
        }
    }
    lemma_not_served(left.subs, topic);
    lemma_find_covering(left.subs, Some(topic), 0);
    if find_covering(left.subs, Some(topic), 0) is None && !search_in_progress(
        left.searches,
        topic,
    ) {
        let peers = choose|peers: Vec<NodeId>| #[trigger]
            call_ensures(closest, (topic,), peers) && members_found(
                left,
                command,
                peers@,
                open_path,
                after,
                write,
            );
        lemma_find_peer(left.subs, peers@, 0);
        if find_peer(left.subs, peers@, 0) is Some {
            let at = find_peer(left.subs, peers@, 0)->0;
            let with = left.with_topic(at, topic);
            lemma_find_covering(with.subs, Some(topic), 0);
            let to = find_covering(with.subs, Some(topic), 0)->0;
            assert(with.subs[to].id == left.subs[to].id);
        }
    }
}

proof fn lemma_path_found<C>(subs: Seq<SubscriptionModel<C>>, id: PathId, from: int)
    requires
        0 <= from,
    ensures
        match find_path(subs, id, from) {
            Some(i) => from <= i < subs.len() && subs[i].id == id,
            None => forall|k: int| from <= k < subs.len() ==> (#[trigger] subs[k]).id != id,
        },
    decreases subs.len() - from,
{
    if from < subs.len() && subs[from].id != id {
        lemma_path_found(subs, id, from + 1);
    }
}

/// No command is lost while its topic has members: it is written, or it is the
/// last of those that wait for a path.
pub proof fn lemma_no_command_lost<
    R,
    C,
    S,
    Closest: FnOnce(Topic) -> Vec<NodeId>,
    Open: FnOnce(NodeId) -> PathId,
>(
    before: NodeModel<R, C, S>,
    command: RequestInit<R, C>,
    closest: Closest,
    open_path: Open,
    after: NodeModel<R, C, S>,
    write: Option<(PathId, Request)>,
)
    requires
        command.can_wait(),
        handled(before, command, closest, open_path, after, write),
        forall|peers: Vec<NodeId>|
            call_ensures(closest, (command.spec_topic()->0,), peers) ==> peers@.len() > 0,
    ensures
        write is Some || exists|path: PathId| #[trigger]
            after.searches.contains_key(path) && after.searches[path].len() > 0
                && after.searches[path].last() == command,
{
    let topic = command.spec_topic()->0;
    if find_covering(before.subs, command.spec_topic(), 0) is None {
        if search_in_progress(before.searches, topic) {
            let path = choose|path: PathId| #[trigger]
                searching(before.searches, path, topic) && after == before.with_waiting(
                    path,
                    command,
                );
            assert(after.searches.contains_key(path));
        } else {
            let peers = choose|peers: Vec<NodeId>| #[trigger]
                call_ensures(closest, (topic,), peers) && members_found(
                    before,
                    command,
                    peers@,
                    open_path,
                    after,
                    write,
                );
            if find_peer(before.subs, peers@, 0) is None {
                let (peer, path) = choose|peer: NodeId, path: PathId|
                    {
                        &&& peers@.contains(peer)
                        &&& #[trigger] call_ensures(open_path, (peer,), path)
                        &&& after == before.with_search(path, command)
                    };
                assert(after.searches.contains_key(path));
            }
        }
    }
}

/// A path that lists a topic once no longer serves it when the subscription has
/// ended, and serves every other topic as before.
pub proof fn lemma_ended_topic_is_gone(topics: Seq<Topic>, topic: Topic, other: Topic)
    requires
        topics.no_duplicates(),
        topics.contains(topic),
        other != topic,
    ensures
        !without_topic(topics, topic).contains(topic),
        without_topic(topics, topic).contains(other) == topics.contains(other),
{
    let less = without_topic(topics, topic);
    let at = choose|at: int| 0 <= at < topics.len() && topics[at] == topic;
    lemma_first_topic(topics, topic, 0, at);
    let n = topics.len() - 1;
    if topics.contains(other) {
        let k = choose|k: int| 0 <= k < topics.len() && topics[k] == other;
        if k == n {
            assert(less[at] == other);
        } else {
            assert(less[k] == other);
        }
    }
    if less.contains(other) {
        let k = choose|k: int| 0 <= k < less.len() && less[k] == other;
        assert(topics[if k == at {
            n
        } else {
            k
        }] == other);
    }
}

/// `command` is about `topic`.
pub open spec fn concerns<R, C>(command: RequestInit<R, C>, topic: Topic) -> bool {
    match command {
        RequestInit::OnionRequest(req) => req.topic == Some(topic),
        RequestInit::Subscription(init) => init.topic == topic,
        RequestInit::EndSubscription(ended) => ended == topic,
        _ => false,
    }
}

/// Something about `topic` waits for `path`.
pub open spec fn waits_for<R, C>(
    searches: Map<PathId, Seq<RequestInit<R, C>>>,
    path: PathId,
    topic: Topic,
) -> bool {
    searches.contains_key(path) && exists|k: int|
        0 <= k < searches[path].len() && concerns(#[trigger] searches[path][k], topic)
}

/// Path `i` is the one that a command about `topic` goes to. It is the first in the
/// walk that serves the topic. Where none does and nothing waits for one, it is the
/// first that ends at one of the nodes that `closest` told for the topic. A command
/// without a topic goes to the first path.
pub open spec fn rightly_chosen<R, C, S, Closest: FnOnce(Topic) -> Vec<NodeId>>(
    before: NodeModel<R, C, S>,
    topic: Option<Topic>,
    closest: Closest,
    i: int,
) -> bool {
    &&& 0 <= i < before.subs.len()
    &&& match topic {
        None => i == 0,
        Some(topic) => {
            ||| before.subs[i].topics.contains(topic) && forall|k: int|
                0 <= k < i ==> !(#[trigger] before.subs[k]).topics.contains(topic)
            ||| {
                &&& forall|k: int|
                    0 <= k < before.subs.len() ==> !(#[trigger] before.subs[k]).topics.contains(
                        topic,
                    )
                &&& forall|path: PathId| !#[trigger] waits_for(before.searches, path, topic)
                &&& exists|peers: Vec<NodeId>| #[trigger]
                    call_ensures(closest, (topic,), peers) && peers@.contains(
                        before.subs[i].peer_id,
                    ) && forall|k: int|
                        0 <= k < i ==> !peers@.contains((#[trigger] before.subs[k]).peer_id)
            }
        },
    }
}

/// `command` about `topic`, which no path serves, waits for a path or is dropped.
/// Where something about the topic waits already, it waits behind that. Otherwise no
/// path ends at a node that `closest` told for the topic, and it waits alone for a
/// new path to one of those; where there are none it is dropped.
pub open spec fn rightly_put_off<
    R,
    C,
    S,
    Closest: FnOnce(Topic) -> Vec<NodeId>,
    Open: FnOnce(NodeId) -> PathId,
>(
    before: NodeModel<R, C, S>,
    command: RequestInit<R, C>,
    topic: Topic,
    closest: Closest,
    open_path: Open,
    after: NodeModel<R, C, S>,
) -> bool {
    &&& after.subs == before.subs
    &&& after.requests == before.requests
    &&& after.streams == before.streams
    &&& {
        ||| exists|path: PathId| #[trigger]
            waits_for(before.searches, path, topic) && after.searches == before.searches.insert(
                path,
                before.searches[path].push(command),
            )
        ||| {
            &&& forall|path: PathId| !#[trigger] waits_for(before.searches, path, topic)
            &&& exists|peers: Vec<NodeId>| #[trigger]
                call_ensures(closest, (topic,), peers) && {
                    &&& forall|k: int|
                        0 <= k < before.subs.len() ==> !peers@.contains(
                            (#[trigger] before.subs[k]).peer_id,
                        )
                    &&& if peers@.len() == 0 {
                        after.searches == before.searches
                    } else {
                        exists|peer: NodeId, path: PathId|
                            {
                                &&& peers@.contains(peer)
                                &&& #[trigger] call_ensures(open_path, (peer,), path)
                                &&& after.searches == before.searches.insert(path, seq![command])
                            }
                    }
                }
        }
    }
}

/// Path `i` carries something about `topic` from now on. It serves the topic, and
/// nothing else of the paths has changed but their channels.
pub open spec fn carries<R, C, S>(
    before: NodeModel<R, C, S>,
    topic: Option<Topic>,
    i: int,
    after: NodeModel<R, C, S>,
) -> bool {
    &&& after.searches == before.searches
    &&& after.streams == before.streams
    &&& after.subs.len() == before.subs.len()
    &&& topic matches Some(topic) ==> after.subs[i].topics.contains(topic)
    &&& forall|k: int|
        0 <= k < before.subs.len() ==> {
            &&& (#[trigger] after.subs[k]).id == before.subs[k].id
            &&& after.subs[k].peer_id == before.subs[k].peer_id
            &&& after.subs[k].topics == if k == i && topic is Some
                && !before.subs[i].topics.contains(topic->0) {
                before.subs[k].topics.push(topic->0)
            } else {
                before.subs[k].topics
            }
        }
}

/// `out` says what `command` asks for.
pub open spec fn says<R, C>(out: Request, command: RequestInit<R, C>) -> bool {
    match command {
        RequestInit::OnionRequest(req) => {
            &&& out.prefix == Rpc::Raw(req.prefix)
            &&& out.id == req.id
            &&& out.topic == req.topic
            &&& out.body == req.payload
        },
        RequestInit::Subscription(init) => {
            &&& out.prefix == Rpc::Subscribe
            &&& out.id == init.id
            &&& out.topic == Some(init.topic)
            &&& out.body@.len() == 0
        },
        _ => false,
    }
}

/// What is noted of a command that path `i` carries: who waits for the answer to a
/// request, or which channel listens on the path.
pub open spec fn noted<R, C, S>(
    before: NodeModel<R, C, S>,
    command: RequestInit<R, C>,
    i: int,
    after: NodeModel<R, C, S>,
) -> bool {
    match command {
        RequestInit::OnionRequest(req) => {
            &&& after.requests == before.requests.insert(req.id, req.response)
            &&& forall|k: int|
                0 <= k < before.subs.len() ==> (#[trigger] after.subs[k]).channels
                    == before.subs[k].channels
        },
        RequestInit::Subscription(init) => {
            &&& after.requests == before.requests
            &&& forall|k: int|
                0 <= k < before.subs.len() ==> (#[trigger] after.subs[k]).channels == if k == i {
                    before.subs[k].channels.insert(init.id, init.channel)
                } else {
                    before.subs[k].channels
                }
        },
        _ => false,
    }
}

/// `command` about `topic` was written to the path it belongs on, or put off.
pub open spec fn rightly_routed<
    R,
    C,
    S,
    Closest: FnOnce(Topic) -> Vec<NodeId>,
    Open: FnOnce(NodeId) -> PathId,
>(
    before: NodeModel<R, C, S>,
    command: RequestInit<R, C>,
    topic: Option<Topic>,
    closest: Closest,
    open_path: Open,
    after: NodeModel<R, C, S>,
    write: Option<(PathId, Request)>,
) -> bool {
    match write {
        Some((to, out)) => says(out, command) && exists|i: int| #[trigger]
            rightly_chosen(before, topic, closest, i) && {
                &&& to == before.subs[i].id
                &&& carries(before, topic, i, after)
                &&& noted(before, command, i, after)
            },
        None => {
            &&& topic matches Some(topic) && {
                &&& forall|k: int|
                    0 <= k < before.subs.len() ==> !(#[trigger] before.subs[k]).topics.contains(
                        topic,
                    )
                &&& rightly_put_off(before, command, topic, closest, open_path, after)
            }
        },
    }
}

/// What `concerns` says of a command is what its topic says.
proof fn lemma_concerns<R, C>(command: RequestInit<R, C>, topic: Topic)
    ensures
        concerns(command, topic) <==> command.spec_topic() == Some(topic),
{
}

proof fn lemma_waits_for<R, C>(searches: Map<PathId, Seq<RequestInit<R, C>>>, topic: Topic)
    ensures
        forall|path: PathId| #[trigger]
            waits_for(searches, path, topic) <==> searching(searches, path, topic),
{
    assert forall|path: PathId| #[trigger] waits_for(searches, path, topic) <==> searching(
        searches,
        path,
        topic,
    ) by {
        if waits_for(searches, path, topic) {
            let k = choose|k: int|
                0 <= k < searches[path].len() && concerns(#[trigger] searches[path][k], topic);
            assert(searches[path][k].spec_topic() == Some(topic));
        }
        if searching(searches, path, topic) {
            let k = choose|k: int|
                0 <= k < searches[path].len() && (#[trigger] searches[path][k]).spec_topic()
                    == Some(topic);
            assert(concerns(searches[path][k], topic));
        }
    }
}

/// A search routes a command about a topic that no path serves.
proof fn lemma_searched_is_routed<
    R,
    C,
    S,
    Closest: FnOnce(Topic) -> Vec<NodeId>,
    Open: FnOnce(NodeId) -> PathId,
>(
    before: NodeModel<R, C, S>,
    command: RequestInit<R, C>,
    closest: Closest,
    open_path: Open,
    after: NodeModel<R, C, S>,
    write: Option<(PathId, Request)>,
)
    requires
        command.can_wait(),
        !served(before.subs, command.spec_topic()->0),
        searched(before, command, closest, open_path, after, write),
    ensures
        rightly_routed(
            before,
            command,
            command.spec_topic(),
            closest,
            open_path,
            after,
            write,
        ),
{
    let topic = command.spec_topic()->0;
    lemma_waits_for(before.searches, topic);
    if search_in_progress(before.searches, topic) {
        let path = choose|path: PathId| #[trigger]
            searching(before.searches, path, topic) && after == before.with_waiting(path, command);
        assert(waits_for(before.searches, path, topic));
    } else {
        assert forall|path: PathId| !#[trigger] waits_for(before.searches, path, topic) by {
            assert(!searching(before.searches, path, topic));
        }
        let peers = choose|peers: Vec<NodeId>| #[trigger]
            call_ensures(closest, (topic,), peers) && members_found(
                before,
                command,
                peers@,
                open_path,
                after,
                write,
            );
        lemma_find_peer(before.subs, peers@, 0);
        assert(call_ensures(closest, (topic,), peers));
        match find_peer(before.subs, peers@, 0) {
            Some(at) => {
                let with = before.with_topic(at, topic);
                lemma_find_covering(with.subs, Some(topic), 0);
                assert(with.subs[at].topics.last() == topic);
                assert(covers(with.subs[at], Some(topic)));
                let i = find_covering(with.subs, Some(topic), 0)->0;
                if i != at {
                    assert(with.subs[i] == before.subs[i]);
                    assert(before.subs[i].topics.contains(topic));
                }
                assert(!before.subs[at].topics.contains(topic));
                assert(rightly_chosen(before, Some(topic), closest, at));
                assert(after.subs[at].topics == before.subs[at].topics.push(topic));
                assert(after.subs[at].topics.contains(topic));
            },
            None => {},
        }
    }
}

/// A command is routed.
proof fn lemma_handled_is_routed<
    R,
    C,
    S,
    Closest: FnOnce(Topic) -> Vec<NodeId>,
    Open: FnOnce(NodeId) -> PathId,
>(
    before: NodeModel<R, C, S>,
    command: RequestInit<R, C>,
    closest: Closest,
    open_path: Open,
    after: NodeModel<R, C, S>,
    write: Option<(PathId, Request)>,
)
    requires
        command is OnionRequest || command is Subscription,
        command.spec_topic() is Some || before.subs.len() > 0,
        handled(before, command, closest, open_path, after, write),
    ensures
        rightly_routed(
            before,
            command,
            command.spec_topic(),
            closest,
            open_path,
            after,
            write,
        ),
{
    let topic = command.spec_topic();
    lemma_find_covering(before.subs, topic, 0);
    if find_covering(before.subs, topic, 0) is Some {
        let i = find_covering(before.subs, topic, 0)->0;
        if topic is Some {
            assert forall|k: int| 0 <= k < i implies !(#[trigger] before.subs[k]).topics.contains(
                topic->0,
            ) by {
                assert(!covers(before.subs[k], topic));
            }
        } else if i > 0 {
            assert(!covers(before.subs[0], topic));
        }
        assert(rightly_chosen(before, topic, closest, i));
    } else {
        assert(topic is None ==> covers(before.subs[0], topic));
        lemma_not_served(before.subs, topic->0);
        assert forall|k: int| 0 <= k < before.subs.len() implies !(
        #[trigger] before.subs[k]).topics.contains(topic->0) by {
            assert(!covers(before.subs[k], topic));
        }
        lemma_searched_is_routed(before, command, closest, open_path, after, write);
    }
}

/// A request goes to a node that serves its topic: over the first open path that
/// serves it, else over one that ends at a member of the topic, else over a new path
/// to a member, for which it waits. The path that takes a topic on ends at one of the
/// nodes that were told for the topic, and what is written is the request.
pub proof fn lemma_request_reaches_a_member<
    R,
    C,
    S,
    Closest: FnOnce(Topic) -> Vec<NodeId>,
    Open: FnOnce(NodeId) -> PathId,
>(req: RawOnionRequest<R>, closest: Closest, open_path: Open)
    ensures
        forall|node: &mut Node<R, C, S>, write: Option<(PathId, Request)>| #[trigger]
            call_ensures(
                Node::<R, C, S>::onion_request::<Closest, Open>,
                (node, req, closest, open_path),
                write,
            ) && (req.topic is Some || node@.subs.len() > 0) ==> rightly_routed(
                node@,
                RequestInit::OnionRequest(req),
                req.topic,
                closest,
                open_path,
                final(node)@,
                write,
            ),
{
    assert forall|node: &mut Node<R, C, S>, write: Option<(PathId, Request)>| #[trigger]
        call_ensures(
            Node::<R, C, S>::onion_request::<Closest, Open>,
            (node, req, closest, open_path),
            write,
        ) && (req.topic is Some || node@.subs.len() > 0) implies rightly_routed(
        node@,
        RequestInit::OnionRequest(req),
        req.topic,
        closest,
        open_path,
        final(node)@,
        write,
    ) by {
        lemma_handled_is_routed(
            node@,
            RequestInit::OnionRequest(req),
            closest,
            open_path,
            final(node)@,
            write,
        );
    }
}

/// As `lemma_request_reaches_a_member`, for a subscription: what is written subscribes
/// to its topic, and its channel listens on the path that it is written to.
pub proof fn lemma_subscription_reaches_a_member<
    R,
    C,
    S,
    Closest: FnOnce(Topic) -> Vec<NodeId>,
    Open: FnOnce(NodeId) -> PathId,
>(init: SubscriptionInit<C>, closest: Closest, open_path: Open)
    ensures
        forall|node: &mut Node<R, C, S>, write: Option<(PathId, Request)>| #[trigger]
            call_ensures(
                Node::<R, C, S>::subscription_request::<Closest, Open>,
                (node, init, closest, open_path),
                write,
            ) ==> rightly_routed(
                node@,
                RequestInit::Subscription(init),
                Some(init.topic),
                closest,
                open_path,
                final(node)@,
                write,
            ),
{
    assert forall|node: &mut Node<R, C, S>, write: Option<(PathId, Request)>| #[trigger]
        call_ensures(
            Node::<R, C, S>::subscription_request::<Closest, Open>,
            (node, init, closest, open_path),
            write,
        ) implies rightly_routed(
        node@,
        RequestInit::Subscription(init),
        Some(init.topic),
        closest,
        open_path,
        final(node)@,
        write,
    ) by {
        lemma_handled_is_routed(
            node@,
            RequestInit::Subscription(init),
            closest,
            open_path,
            final(node)@,
            write,
        );
    }
}

/// A search for `topic` was made for `command`. Where it is written, nothing waited for
/// the topic, and the first path that ends at one of the nodes that `closest` told for
/// it, path `at`, takes the topic on. It is written to the first path that then serves
/// the topic, path `i`.
pub open spec fn rightly_searched<
    R,
    C,
    S,
    Closest: FnOnce(Topic) -> Vec<NodeId>,
    Open: FnOnce(NodeId) -> PathId,
>(
    before: NodeModel<R, C, S>,
    command: RequestInit<R, C>,
    topic: Topic,
    closest: Closest,
    open_path: Open,
    after: NodeModel<R, C, S>,
    write: Option<(PathId, Request)>,
) -> bool {
    match write {
        Some((to, out)) => {
            &&& says(out, command)
            &&& forall|path: PathId| !#[trigger] waits_for(before.searches, path, topic)
            &&& after.searches == before.searches
            &&& after.streams == before.streams
            &&& after.subs.len() == before.subs.len()
            &&& exists|peers: Vec<NodeId>, at: int, i: int|
                #![trigger call_ensures(closest, (topic,), peers), before.subs[at], before.subs[i]]
                {
                    &&& call_ensures(closest, (topic,), peers)
                    &&& 0 <= i <= at < before.subs.len()
                    &&& peers@.contains(before.subs[at].peer_id)
                    &&& forall|k: int|
                        0 <= k < at ==> !peers@.contains((#[trigger] before.subs[k]).peer_id)
                    &&& i == at || before.subs[i].topics.contains(topic)
                    &&& forall|k: int|
                        0 <= k < i ==> !(#[trigger] before.subs[k]).topics.contains(topic)
                    &&& to == before.subs[i].id
                    &&& noted(before, command, i, after)
                    &&& forall|k: int|
                        0 <= k < before.subs.len() ==> {
                            &&& (#[trigger] after.subs[k]).id == before.subs[k].id
                            &&& after.subs[k].peer_id == before.subs[k].peer_id
                            &&& after.subs[k].topics == if k == at {
                                before.subs[k].topics.push(topic)
                            } else {
                                before.subs[k].topics
                            }
                        }
                }
        },
        None => rightly_put_off(before, command, topic, closest, open_path, after),
    }
}

/// A search goes to a member of the topic: to a path that is being opened to one, else
/// over a path that ends at one, else over a new path to one.
pub proof fn lemma_search_reaches_a_member<
    R,
    C,
    S,
    Closest: FnOnce(Topic) -> Vec<NodeId>,
    Open: FnOnce(NodeId) -> PathId,
>(command: RequestInit<R, C>, topic: Topic, closest: Closest, open_path: Open)
    requires
        command is OnionRequest || command is Subscription,
        concerns(command, topic),
    ensures
        forall|node: &mut Node<R, C, S>, write: Option<(PathId, Request)>| #[trigger]
            call_ensures(
                Node::<R, C, S>::handle_topic_search::<Closest, Open>,
                (node, command, closest, open_path),
                write,
            ) ==> rightly_searched(
                node@,
                command,
                topic,
                closest,
                open_path,
                final(node)@,
                write,
            ),
{
    lemma_concerns(command, topic);
    assert forall|node: &mut Node<R, C, S>, write: Option<(PathId, Request)>| #[trigger]
        call_ensures(
            Node::<R, C, S>::handle_topic_search::<Closest, Open>,
            (node, command, closest, open_path),
            write,
        ) implies rightly_searched(
        node@,
        command,
        topic,
        closest,
        open_path,
        final(node)@,
        write,
    ) by {
        lemma_rightly_searched(node@, command, closest, open_path, final(node)@, write);
    }
}

proof fn lemma_rightly_searched<
    R,
    C,
    S,
    Closest: FnOnce(Topic) -> Vec<NodeId>,
    Open: FnOnce(NodeId) -> PathId,
>(
    before: NodeModel<R, C, S>,
    command: RequestInit<R, C>,
    closest: Closest,
    open_path: Open,
    after: NodeModel<R, C, S>,
    write: Option<(PathId, Request)>,
)
    requires
        command.can_wait(),
        searched(before, command, closest, open_path, after, write),
    ensures
        rightly_searched(
            before,
            command,
            command.spec_topic()->0,
            closest,
            open_path,
            after,
            write,
        ),
{
    let topic = command.spec_topic()->0;
    lemma_waits_for(before.searches, topic);
    if search_in_progress(before.searches, topic) {
        let path = choose|path: PathId| #[trigger]
            searching(before.searches, path, topic) && after == before.with_waiting(path, command);
        assert(waits_for(before.searches, path, topic));
    } else {
        assert forall|path: PathId| !#[trigger] waits_for(before.searches, path, topic) by {
            assert(!searching(before.searches, path, topic));
        }
        let peers = choose|peers: Vec<NodeId>| #[trigger]
            call_ensures(closest, (topic,), peers) && members_found(
                before,
                command,
                peers@,
                open_path,
                after,
                write,
            );
        lemma_find_peer(before.subs, peers@, 0);
        assert(call_ensures(closest, (topic,), peers));
        if let Some(at) = find_peer(before.subs, peers@, 0) {
            let with = before.with_topic(at, topic);
            lemma_find_covering(with.subs, Some(topic), 0);
            assert(with.subs[at].topics.last() == topic);
            assert(covers(with.subs[at], Some(topic)));
            let i = find_covering(with.subs, Some(topic), 0)->0;
            assert(i <= at);
            assert(i == at || before.subs[i].topics.contains(topic));
            assert forall|k: int| 0 <= k < i implies !(#[trigger] before.subs[k]).topics.contains(
                topic,
            ) by {
                assert(!covers(with.subs[k], Some(topic)));
            }
        }
    }
}

/// The user interface is served as it asks: requests and subscriptions are routed, an
/// end of a subscription ends it, and nothing comes of the rest.
pub proof fn lemma_commands_are_carried_out<
    R,
    C,
    S,
    Closest: FnOnce(Topic) -> Vec<NodeId>,
    Open: FnOnce(NodeId) -> PathId,
>(command: RequestInit<R, C>, fresh: RequestId, closest: Closest, open_path: Open)
    ensures
        forall|node: &mut Node<R, C, S>, write: Option<(PathId, Request)>| #[trigger]
            call_ensures(
                Node::<R, C, S>::command::<Closest, Open>,
                (node, command, fresh, closest, open_path),
                write,
            ) ==> match command {
                RequestInit::OnionRequest(req) => req.topic is Some || node@.subs.len() > 0
                    ==> rightly_routed(
                    node@,
                    command,
                    req.topic,
                    closest,
                    open_path,
                    final(node)@,
                    write,
                ),
                RequestInit::Subscription(init) => rightly_routed(
                    node@,
                    command,
                    Some(init.topic),
                    closest,
                    open_path,
                    final(node)@,
                    write,
                ),
                RequestInit::EndSubscription(topic) => rightly_ended(
                    node@,
                    topic,
                    fresh,
                    final(node)@,
                    write,
                ),
                _ => final(node)@ == node@ && write is None,
            },
{
    assert forall|node: &mut Node<R, C, S>, write: Option<(PathId, Request)>| #[trigger]
        call_ensures(
            Node::<R, C, S>::command::<Closest, Open>,
            (node, command, fresh, closest, open_path),
            write,
        ) implies match command {
        RequestInit::OnionRequest(req) => req.topic is Some || node@.subs.len() > 0
            ==> rightly_routed(
            node@,
            command,
            req.topic,
            closest,
            open_path,
            final(node)@,
            write,
        ),
        RequestInit::Subscription(init) => rightly_routed(
            node@,
            command,
            Some(init.topic),
            closest,
            open_path,
            final(node)@,
            write,
        ),
        RequestInit::EndSubscription(topic) => rightly_ended(
            node@,
            topic,
            fresh,
            final(node)@,
            write,
        ),
        _ => final(node)@ == node@ && write is None,
    } by {
        match command {
            RequestInit::OnionRequest(req) => if req.topic is Some || node@.subs.len() > 0 {
                lemma_handled_is_routed(node@, command, closest, open_path, final(node)@, write);
            },
            RequestInit::Subscription(_) => {
                lemma_handled_is_routed(node@, command, closest, open_path, final(node)@, write);
            },
            RequestInit::EndSubscription(topic) => {
                lemma_rightly_ended(node@, topic, fresh, final(node)@, write);
            },
            _ => {},
        }
    }
}

/// The subscription to `topic` was ended: the first path in the walk that serves the
/// topic is told so under the number `fresh`, and lists it one time less. Nothing
/// else changes. Where no path serves it nothing changes at all.
pub open spec fn rightly_ended<R, C, S>(
    before: NodeModel<R, C, S>,
    topic: Topic,
    fresh: RequestId,
    after: NodeModel<R, C, S>,
    write: Option<(PathId, Request)>,
) -> bool {
    match write {
        Some((to, out)) => {
            &&& out.prefix == Rpc::Unsubscribe
            &&& out.id == fresh
            &&& out.topic == Some(topic)
            &&& out.body@.len() == 0
            &&& after.requests == before.requests
            &&& after.searches == before.searches
            &&& after.streams == before.streams
            &&& after.subs.len() == before.subs.len()
            &&& exists|i: int|
                {
                    &&& 0 <= i < before.subs.len()
                    &&& (#[trigger] before.subs[i]).id == to
                    &&& before.subs[i].topics.contains(topic)
                    &&& forall|k: int|
                        0 <= k < i ==> !(#[trigger] before.subs[k]).topics.contains(topic)
                    &&& after.subs[i].id == before.subs[i].id
                    &&& after.subs[i].peer_id == before.subs[i].peer_id
                    &&& after.subs[i].channels == before.subs[i].channels
                    &&& after.subs[i].topics.to_multiset()
                        == before.subs[i].topics.to_multiset().remove(topic)
                    &&& forall|k: int|
                        0 <= k < before.subs.len() && k != i ==> #[trigger] after.subs[k]
                            == before.subs[k]
                }
        },
        None => {
            &&& after == before
            &&& forall|k: int|
                0 <= k < before.subs.len() ==> !(#[trigger] before.subs[k]).topics.contains(topic)
        },
    }
}

proof fn lemma_topic_at(topics: Seq<Topic>, topic: Topic, from: int)
    requires
        0 <= from,
    ensures
        match first_topic(topics, topic, from) {
            Some(at) => from <= at < topics.len() && topics[at] == topic,
            None => forall|k: int| from <= k < topics.len() ==> topics[k] != topic,
        },
    decreases topics.len() - from,
{
    if from < topics.len() && topics[from] != topic {
        lemma_topic_at(topics, topic, from + 1);
    }
}

/// A topic that is taken out leaves all others, and itself one time less.
proof fn lemma_without_topic(topics: Seq<Topic>, topic: Topic)
    requires
        topics.contains(topic),
    ensures
        without_topic(topics, topic).to_multiset() == topics.to_multiset().remove(topic),
{
    broadcast use vstd::seq_lib::group_to_multiset_ensures;

    lemma_topic_at(topics, topic, 0);
    let at = first_topic(topics, topic, 0)->0;
    let last = topics.last();
    let n = topics.len() - 1;
    let less = without_topic(topics, topic);
    let moved = topics.update(at, last);
    assert(moved.to_multiset() =~= topics.to_multiset().insert(last).remove(topics[at]));
    assert(less.push(last) =~= moved);
    assert(less.to_multiset().insert(last) =~= moved.to_multiset());
    assert(topics.to_multiset().count(topic) > 0);
    assert forall|other: Topic| #[trigger]
        less.to_multiset().count(other) == topics.to_multiset().remove(topic).count(other) by {
        assert(less.to_multiset().insert(last).count(other) == topics.to_multiset().insert(
            last,
        ).remove(topic).count(other));
    }
    assert(less.to_multiset() =~= topics.to_multiset().remove(topic));
}

proof fn lemma_rightly_ended<R, C, S>(
    before: NodeModel<R, C, S>,
    topic: Topic,
    fresh: RequestId,
    after: NodeModel<R, C, S>,
    write: Option<(PathId, Request)>,
)
    requires
        ended(before, topic, fresh, after, write),
    ensures
        rightly_ended(before, topic, fresh, after, write),
{
    lemma_find_covering(before.subs, Some(topic), 0);
    match find_covering(before.subs, Some(topic), 0) {
        Some(i) => {
            lemma_without_topic(before.subs[i].topics, topic);
            assert forall|k: int| 0 <= k < i implies !(#[trigger] before.subs[k]).topics.contains(
                topic,
            ) by {
                assert(!covers(before.subs[k], Some(topic)));
            }
            assert(write matches Some((to, _)) && before.subs[i].id == to);
        },
        None => {
            assert forall|k: int| 0 <= k < before.subs.len() implies !(
            #[trigger] before.subs[k]).topics.contains(topic) by {
                assert(!covers(before.subs[k], Some(topic)));
            }
        },
    }
}

/// Ending a subscription tells the node that serves its topic, and takes the topic
/// from its path once.
pub proof fn lemma_subscription_is_ended<R, C, S>(topic: Topic, fresh: RequestId)
    ensures
        forall|node: &mut Node<R, C, S>, write: Option<(PathId, Request)>| #[trigger]
            call_ensures(Node::<R, C, S>::subscription_end, (node, topic, fresh), write)
                ==> rightly_ended(node@, topic, fresh, final(node)@, write),
{
    assert forall|node: &mut Node<R, C, S>, write: Option<(PathId, Request)>| #[trigger]
        call_ensures(
            Node::<R, C, S>::subscription_end,
            (node, topic, fresh),
            write,
        ) implies rightly_ended(node@, topic, fresh, final(node)@, write) by {
        lemma_rightly_ended(node@, topic, fresh, final(node)@, write);
    }
}

/// `command` is a request with the number `id`.
pub open spec fn asks<R, C>(command: RequestInit<R, C>, id: RequestId) -> bool {
    command matches RequestInit::OnionRequest(req) && req.id == id
}

/// `command` is a subscription with the number `id`.
pub open spec fn listens<R, C>(command: RequestInit<R, C>, id: RequestId) -> bool {
    command matches RequestInit::Subscription(init) && init.id == id
}

/// Of several commands, `requests` notes whoever waits for an answer, beside what was
/// noted `before`. Of two with one number the later counts.
pub open spec fn requests_noted<R, C>(
    before: Map<RequestId, R>,
    commands: Seq<RequestInit<R, C>>,
    requests: Map<RequestId, R>,
) -> bool {
    &&& forall|id: RequestId| #[trigger]
        requests.contains_key(id) <==> before.contains_key(id) || exists|k: int|
            0 <= k < commands.len() && asks(#[trigger] commands[k], id)
    &&& forall|id: RequestId|
        (forall|k: int| 0 <= k < commands.len() ==> !asks(#[trigger] commands[k], id))
            && before.contains_key(id) ==> #[trigger] requests[id] == before[id]
    &&& forall|k: int|
        0 <= k < commands.len() ==> (#[trigger] commands[k] matches RequestInit::OnionRequest(req)
            ==> (forall|later: int|
            k < later < commands.len() ==> !asks(#[trigger] commands[later], req.id))
            ==> requests[req.id] == req.response)
}

/// As `requests_noted`, for the channels of a path that had none.
pub open spec fn channels_noted<R, C>(
    commands: Seq<RequestInit<R, C>>,
    channels: Map<RequestId, C>,
) -> bool {
    &&& forall|id: RequestId| #[trigger]
        channels.contains_key(id) <==> exists|k: int|
            0 <= k < commands.len() && listens(#[trigger] commands[k], id)
    &&& forall|k: int|
        0 <= k < commands.len() ==> (#[trigger] commands[k] matches RequestInit::Subscription(init)
            ==> (forall|later: int|
            k < later < commands.len() ==> !listens(#[trigger] commands[later], init.id))
            ==> channels[init.id] == init.channel)
}

/// One more command is noted.
proof fn lemma_one_more_request<R, C>(
    before: Map<RequestId, R>,
    front: Seq<RequestInit<R, C>>,
    last: RequestInit<R, C>,
    was: Map<RequestId, R>,
)
    requires
        requests_noted(before, front, was),
    ensures
        requests_noted(
            before,
            front.push(last),
            match last {
                RequestInit::OnionRequest(req) => was.insert(req.id, req.response),
                _ => was,
            },
        ),
{
    let commands = front.push(last);
    let requests = match last {
        RequestInit::OnionRequest(req) => was.insert(req.id, req.response),
        _ => was,
    };
    assert(commands[front.len() as int] == last);
    assert forall|id: RequestId| #[trigger]
        requests.contains_key(id) <==> before.contains_key(id) || exists|k: int|
            0 <= k < commands.len() && asks(#[trigger] commands[k], id) by {
        if exists|k: int| 0 <= k < front.len() && asks(#[trigger] front[k], id) {
            let k = choose|k: int| 0 <= k < front.len() && asks(#[trigger] front[k], id);
            assert(asks(commands[k], id));
        }
        if exists|k: int| 0 <= k < commands.len() && asks(#[trigger] commands[k], id) {
            let k = choose|k: int| 0 <= k < commands.len() && asks(#[trigger] commands[k], id);
            assert(k < front.len() ==> asks(front[k], id));
        }
        assert(was.contains_key(id) ==> requests.contains_key(id));
    }
    assert forall|id: RequestId|
        (forall|k: int| 0 <= k < commands.len() ==> !asks(#[trigger] commands[k], id))
            && before.contains_key(id) implies #[trigger] requests[id] == before[id] by {
        assert forall|k: int| 0 <= k < front.len() implies !asks(#[trigger] front[k], id) by {
            assert(!asks(commands[k], id));
        }
        assert(was[id] == before[id]);
    }
    assert forall|k: int| 0 <= k < commands.len() implies (
    #[trigger] commands[k] matches RequestInit::OnionRequest(req) ==> (forall|later: int|
        k < later < commands.len() ==> !asks(#[trigger] commands[later], req.id))
        ==> requests[req.id] == req.response) by {
        if let RequestInit::OnionRequest(req) = commands[k] {
            if k < front.len() && (forall|later: int|
                k < later < commands.len() ==> !asks(#[trigger] commands[later], req.id)) {
                assert(front[k] == commands[k]);
                assert forall|later: int| k < later < front.len() implies !asks(
                    #[trigger] front[later],
                    req.id,
                ) by {
                    assert(!asks(commands[later], req.id));
                }
                assert(was[req.id] == req.response);
            }
        }
    }
}

/// As `lemma_one_more_request`, for channels.
proof fn lemma_one_more_channel<R, C>(
    front: Seq<RequestInit<R, C>>,
    last: RequestInit<R, C>,
    was: Map<RequestId, C>,
)
    requires
        channels_noted(front, was),
    ensures
        channels_noted(
            front.push(last),
            match last {
                RequestInit::Subscription(init) => was.insert(init.id, init.channel),
                _ => was,
            },
        ),
{
    let commands = front.push(last);
    let channels = match last {
        RequestInit::Subscription(init) => was.insert(init.id, init.channel),
        _ => was,
    };
    assert(commands[front.len() as int] == last);
    assert forall|id: RequestId| #[trigger]
        channels.contains_key(id) <==> exists|k: int|
            0 <= k < commands.len() && listens(#[trigger] commands[k], id) by {
        if exists|k: int| 0 <= k < front.len() && listens(#[trigger] front[k], id) {
            let k = choose|k: int| 0 <= k < front.len() && listens(#[trigger] front[k], id);
            assert(listens(commands[k], id));
        }
        if exists|k: int| 0 <= k < commands.len() && listens(#[trigger] commands[k], id) {
            let k = choose|k: int| 0 <= k < commands.len() && listens(#[trigger] commands[k], id);
            assert(k < front.len() ==> listens(front[k], id));
        }
        assert(was.contains_key(id) ==> channels.contains_key(id));
    }
    assert forall|k: int| 0 <= k < commands.len() implies (
    #[trigger] commands[k] matches RequestInit::Subscription(init) ==> (forall|later: int|
        k < later < commands.len() ==> !listens(#[trigger] commands[later], init.id))
        ==> channels[init.id] == init.channel) by {
        if let RequestInit::Subscription(init) = commands[k] {
            if k < front.len() && (forall|later: int|
                k < later < commands.len() ==> !listens(#[trigger] commands[later], init.id)) {
                assert(front[k] == commands[k]);
                assert forall|later: int| k < later < front.len() implies !listens(
                    #[trigger] front[later],
                    init.id,
                ) by {
                    assert(!listens(commands[later], init.id));
                }
                assert(was[init.id] == init.channel);
            }
        }
    }
}

/// What is noted of commands that go to a path one after the other.
proof fn lemma_noted_in_turn<R, C, S>(
    opened: NodeModel<R, C, S>,
    topic: Topic,
    commands: Seq<RequestInit<R, C>>,
)
    requires
        opened.subs.len() > 0,
        opened.subs[0].topics.contains(topic),
        opened.subs[0].channels == Map::<RequestId, C>::empty(),
        forall|k: int|
            0 <= k < commands.len() ==> (#[trigger] commands[k]).can_wait()
                && commands[k].spec_topic() == Some(topic),
    ensures
        ({
            let at = after_all_sent(opened, commands);
            &&& at.searches == opened.searches
            &&& at.streams == opened.streams
            &&& at.subs.len() == opened.subs.len()
            &&& at.subs[0].id == opened.subs[0].id
            &&& at.subs[0].peer_id == opened.subs[0].peer_id
            &&& at.subs[0].topics == opened.subs[0].topics
            &&& forall|k: int|
                0 < k < opened.subs.len() ==> #[trigger] at.subs[k] == opened.subs[k]
            &&& requests_noted(opened.requests, commands, at.requests)
            &&& channels_noted(commands, at.subs[0].channels)
        }),
    decreases commands.len(),
{
    if commands.len() > 0 {
        let front = commands.drop_last();
        let last = commands.last();
        assert forall|k: int| 0 <= k < front.len() implies (#[trigger] front[k]).can_wait()
            && front[k].spec_topic() == Some(topic) by {
            assert(front[k] == commands[k]);
        }
        lemma_noted_in_turn(opened, topic, front);
        let was = after_all_sent(opened, front);
        assert(commands =~= front.push(last));
        assert(commands[commands.len() - 1] == last);
        assert(covers(was.subs[0], Some(topic)));
        assert(find_covering(was.subs, Some(topic), 0) == Some(0int));
        lemma_one_more_request(opened.requests, front, last, was.requests);
        lemma_one_more_channel(front, last, was.subs[0].channels);
    }
}

/// A path that was opened for `waiting` came up, or failed to. If it came up, each
/// command that waited is written to it as what it asks for, in turn, and is noted.
/// The path is the first in the walk, ends at `stream` and serves the one topic that
/// the commands are about. If it failed they are dropped. Nothing waits for it any
/// more, and the other paths and searches are as before.
pub open spec fn rightly_come_up<R, C, S>(
    before: NodeModel<R, C, S>,
    id: PathId,
    stream: Option<NodeId>,
    after: NodeModel<R, C, S>,
    writes: Seq<(PathId, Request)>,
) -> bool {
    let waiting = before.searches[id];
    &&& after.searches == before.searches.remove(id)
    &&& after.streams == before.streams
    &&& match stream {
        None => {
            &&& writes.len() == 0
            &&& after.subs == before.subs
            &&& after.requests == before.requests
        },
        Some(peer) => {
            &&& writes.len() == waiting.len()
            &&& forall|k: int|
                0 <= k < waiting.len() ==> (#[trigger] writes[k]).0 == id && says(
                    writes[k].1,
                    waiting[k],
                )
            &&& after.subs.len() == before.subs.len() + 1
            &&& after.subs[0].id == id
            &&& after.subs[0].peer_id == peer
            &&& after.subs[0].topics.len() == 1
            &&& forall|k: int|
                0 <= k < waiting.len() ==> concerns(
                    #[trigger] waiting[k],
                    after.subs[0].topics[0],
                )
            &&& forall|k: int|
                0 <= k < before.subs.len() ==> after.subs[k + 1] == #[trigger] before.subs[k]
            &&& requests_noted(before.requests, waiting, after.requests)
            &&& channels_noted(waiting, after.subs[0].channels)
        },
    }
}

/// What waited for a path is written to it when it comes up, each as what it asks
/// for: a subscription to a topic as a subscription to that topic.
pub proof fn lemma_waiting_is_written_as_asked<R, C, S>(id: PathId, stream: Option<NodeId>)
    ensures
        forall|node: &mut Node<R, C, S>, writes: Vec<(PathId, Request)>| #[trigger]
            call_ensures(Node::<R, C, S>::outbound_stream, (node, id, stream), writes)
                && node@.wf() ==> if node@.searches.contains_key(id) {
                rightly_come_up(node@, id, stream, final(node)@, writes@)
            } else {
                final(node)@ == node@ && writes@.len() == 0
            },
{
    assert forall|node: &mut Node<R, C, S>, writes: Vec<(PathId, Request)>| #[trigger]
        call_ensures(Node::<R, C, S>::outbound_stream, (node, id, stream), writes)
            && node@.wf() implies if node@.searches.contains_key(id) {
        rightly_come_up(node@, id, stream, final(node)@, writes@)
    } else {
        final(node)@ == node@ && writes@.len() == 0
    } by {
        let before = node@;
        if before.searches.contains_key(id) && stream is Some {
            let peer = stream->0;
            let waiting = before.searches[id];
            let opened = path_opened(before, id, peer);
            let topic = waiting[0].spec_topic()->0;
            assert(waiting[0].spec_topic() is Some);
            assert(opened.subs[0].topics[0] == topic);
            assert forall|k: int| 0 <= k < waiting.len() implies (#[trigger] waiting[k]).can_wait()
                && waiting[k].spec_topic() == Some(topic) by {}
            lemma_noted_in_turn(opened, topic, waiting);
            lemma_waiting_goes_to_its_path(before, id, peer, final(node)@, writes@);
            assert forall|k: int| 0 <= k < waiting.len() implies says(
                (#[trigger] writes@[k]).1,
                waiting[k],
            ) by {
                assert(written_in_turn(opened, waiting, k, writes@[k]));
            }
            assert forall|k: int| 0 <= k < waiting.len() implies concerns(
                #[trigger] waiting[k],
                final(node)@.subs[0].topics[0],
            ) by {
                lemma_concerns(waiting[k], topic);
            }
            assert forall|k: int| 0 <= k < before.subs.len() implies final(node)@.subs[k + 1]
                == #[trigger] before.subs[k] by {
                assert(final(node)@.subs[k + 1] == opened.subs[k + 1]);
            }
        }
    }
}

/// `after` is `before` with the first path of the number `id` in front. The others
/// keep their order.
pub open spec fn brought_first<C>(
    before: Seq<SubscriptionModel<C>>,
    id: PathId,
    after: Seq<SubscriptionModel<C>>,
) -> bool {
    ||| {
        &&& after == before
        &&& forall|k: int| 0 <= k < before.len() ==> (#[trigger] before[k]).id != id
    }
    ||| exists|at: int|
        {
            &&& 0 <= at < before.len()
            &&& (#[trigger] before[at]).id == id
            &&& forall|k: int| 0 <= k < at ==> (#[trigger] before[k]).id != id
            &&& after.len() == before.len()
            &&& after[0] == before[at]
            &&& forall|k: int| 0 <= k < at ==> after[k + 1] == #[trigger] before[k]
            &&& forall|k: int| at < k < before.len() ==> after[k] == #[trigger] before[k]
        }
}

proof fn lemma_path_at<C>(subs: Seq<SubscriptionModel<C>>, id: PathId, from: int)
    requires
        0 <= from,
    ensures
        match find_path(subs, id, from) {
            Some(at) => {
                &&& from <= at < subs.len()
                &&& subs[at].id == id
                &&& forall|k: int| from <= k < at ==> (#[trigger] subs[k]).id != id
            },
            None => forall|k: int| from <= k < subs.len() ==> (#[trigger] subs[k]).id != id,
        },
    decreases subs.len() - from,
{
    if from < subs.len() && subs[from].id != id {
        lemma_path_at(subs, id, from + 1);
    }
}

proof fn lemma_walked_from<C>(subs: Seq<SubscriptionModel<C>>, id: PathId)
    ensures
        brought_first(subs, id, walked_from(subs, id)),
{
    lemma_path_at(subs, id, 0);
    if let Some(at) = find_path(subs, id, 0) {
        let after = walked_from(subs, id);
        assert(after[0] == subs[at]);
        assert forall|k: int| 0 <= k < at implies after[k + 1] == #[trigger] subs[k] by {
            assert(subs.remove(at)[k] == subs[k]);
        }
        assert forall|k: int| at < k < subs.len() implies after[k] == #[trigger] subs[k] by {
            assert(subs.remove(at)[k - 1] == subs[k]);
        }
        assert(subs[at].id == id);
    }
}

/// A path that is polled goes in front of the others, which keep their order, and
/// nothing else changes.
pub proof fn lemma_polled_path_is_first<R, C, S>(id: PathId)
    ensures
        forall|node: &mut Node<R, C, S>, done: ()| #[trigger]
            call_ensures(Node::<R, C, S>::path_polled, (node, id), done) ==> {
                &&& brought_first(node@.subs, id, final(node)@.subs)
                &&& final(node)@.requests == node@.requests
                &&& final(node)@.searches == node@.searches
                &&& final(node)@.streams == node@.streams
            },
{
    assert forall|node: &mut Node<R, C, S>, done: ()| #[trigger]
        call_ensures(Node::<R, C, S>::path_polled, (node, id), done) implies {
        &&& brought_first(node@.subs, id, final(node)@.subs)
        &&& final(node)@.requests == node@.requests
        &&& final(node)@.searches == node@.searches
        &&& final(node)@.streams == node@.streams
    } by {
        lemma_walked_from(node@.subs, id);
    }
}

/// The path that ended, the first of its number, is taken out of the walk, and only
/// that.
pub proof fn lemma_ended_path_is_gone<R, C, S>(id: PathId)
    ensures
        forall|node: &mut Node<R, C, S>, done: ()| #[trigger]
            call_ensures(Node::<R, C, S>::path_ended, (node, id), done) ==> {
                &&& final(node)@.requests == node@.requests
                &&& final(node)@.searches == node@.searches
                &&& final(node)@.streams == node@.streams
                &&& {
                    ||| {
                        &&& final(node)@.subs == node@.subs
                        &&& forall|k: int|
                            0 <= k < node@.subs.len() ==> (#[trigger] node@.subs[k]).id != id
                    }
                    ||| exists|at: int|
                        {
                            &&& 0 <= at < node@.subs.len()
                            &&& (#[trigger] node@.subs[at]).id == id
                            &&& forall|k: int|
                                0 <= k < at ==> (#[trigger] node@.subs[k]).id != id
                            &&& final(node)@.subs == node@.subs.take(at) + node@.subs.skip(at + 1)
                        }
                }
            },
{
    assert forall|node: &mut Node<R, C, S>, done: ()| #[trigger]
        call_ensures(Node::<R, C, S>::path_ended, (node, id), done) implies {
        &&& final(node)@.requests == node@.requests
        &&& final(node)@.searches == node@.searches
        &&& final(node)@.streams == node@.streams
        &&& {
            ||| {
                &&& final(node)@.subs == node@.subs
                &&& forall|k: int|
                    0 <= k < node@.subs.len() ==> (#[trigger] node@.subs[k]).id != id
            }
            ||| exists|at: int|
                {
                    &&& 0 <= at < node@.subs.len()
                    &&& (#[trigger] node@.subs[at]).id == id
                    &&& forall|k: int| 0 <= k < at ==> (#[trigger] node@.subs[k]).id != id
                    &&& final(node)@.subs == node@.subs.take(at) + node@.subs.skip(at + 1)
                }
        }
    } by {
        let subs = node@.subs;
        lemma_path_at(subs, id, 0);
        if let Some(at) = find_path(subs, id, 0) {
            assert(subs.remove(at) =~= subs.take(at) + subs.skip(at + 1));
            assert(subs[at].id == id);
        }
    }
}

proof fn lemma_stream_at<S>(streams: Seq<(NodeId, RequestId, S)>, peer: NodeId, upto: int)
    requires
        upto <= streams.len(),
    ensures
        match last_stream(streams, peer, upto) {
            Some(at) => {
                &&& 0 <= at < upto
                &&& streams[at].0 == peer
                &&& forall|k: int| at < k < upto ==> (#[trigger] streams[k]).0 != peer
            },
            None => forall|k: int| 0 <= k < upto ==> (#[trigger] streams[k]).0 != peer,
        },
    decreases upto,
{
    if upto > 0 && streams[upto - 1].0 != peer {
        lemma_stream_at(streams, peer, upto - 1);
    }
}

/// Whoever has waited longest for a stream to a peer gets the one that comes up: new
/// ones wait in front, and the last of those that wait for this peer is handed it
/// and waits no more. Nobody gets a stream that failed.
pub proof fn lemma_longest_waiting_gets_the_stream<R, C, S>(
    peer: NodeId,
    id: RequestId,
    sender: S,
    opened: bool,
)
    ensures
        forall|node: &mut Node<R, C, S>, done: ()| #[trigger]
            call_ensures(Node::<R, C, S>::stream_request, (node, peer, id, sender), done) ==> {
                &&& final(node)@.streams.len() == node@.streams.len() + 1
                &&& final(node)@.streams[0] == (peer, id, sender)
                &&& forall|k: int|
                    0 <= k < node@.streams.len() ==> final(node)@.streams[k + 1]
                        == #[trigger] node@.streams[k]
                &&& final(node)@.subs == node@.subs
                &&& final(node)@.requests == node@.requests
                &&& final(node)@.searches == node@.searches
            },
        forall|node: &mut Node<R, C, S>, waiter: Option<(RequestId, S)>| #[trigger]
            call_ensures(Node::<R, C, S>::outgoing_stream, (node, peer, opened), waiter) ==> {
                &&& final(node)@.subs == node@.subs
                &&& final(node)@.requests == node@.requests
                &&& final(node)@.searches == node@.searches
                &&& match waiter {
                    Some((call, channel)) => opened && exists|at: int|
                        {
                            &&& 0 <= at < node@.streams.len()
                            &&& #[trigger] node@.streams[at] == (peer, call, channel)
                            &&& forall|k: int|
                                at < k < node@.streams.len() ==> (#[trigger] node@.streams[k]).0
                                    != peer
                            &&& final(node)@.streams == node@.streams.take(at)
                                + node@.streams.skip(at + 1)
                        },
                    None => {
                        &&& final(node)@.streams == node@.streams
                        &&& opened ==> forall|k: int|
                            0 <= k < node@.streams.len() ==> (#[trigger] node@.streams[k]).0
                                != peer
                    },
                }
            },
{
    assert forall|node: &mut Node<R, C, S>, waiter: Option<(RequestId, S)>| #[trigger]
        call_ensures(Node::<R, C, S>::outgoing_stream, (node, peer, opened), waiter) implies {
        &&& final(node)@.subs == node@.subs
        &&& final(node)@.requests == node@.requests
        &&& final(node)@.searches == node@.searches
        &&& match waiter {
            Some((call, channel)) => opened && exists|at: int|
                {
                    &&& 0 <= at < node@.streams.len()
                    &&& #[trigger] node@.streams[at] == (peer, call, channel)
                    &&& forall|k: int|
                        at < k < node@.streams.len() ==> (#[trigger] node@.streams[k]).0 != peer
                    &&& final(node)@.streams == node@.streams.take(at) + node@.streams.skip(at + 1)
                },
            None => {
                &&& final(node)@.streams == node@.streams
                &&& opened ==> forall|k: int|
                    0 <= k < node@.streams.len() ==> (#[trigger] node@.streams[k]).0 != peer
            },
        }
    } by {
        let streams = node@.streams;
        lemma_stream_at(streams, peer, streams.len() as int);
        if let Some(at) = last_stream(streams, peer, streams.len() as int) {
            assert(streams.remove(at) =~= streams.take(at) + streams.skip(at + 1));
            assert(streams[at] == (streams[at].0, streams[at].1, streams[at].2));
        }
    }
}

/// A message came in over path `id`. The path goes in front. A request that waits
/// for the call gets the content and waits no more. Otherwise the channel for the
/// call on this very path is offered the content, and is dropped if it does not take
/// it. Nothing else changes.
pub open spec fn rightly_responded<R, C, S, TrySend: FnOnce(&C, Vec<u8>) -> bool>(
    before: NodeModel<R, C, S>,
    id: PathId,
    message: Option<(RequestId, Vec<u8>)>,
    try_send: TrySend,
    walked: Seq<SubscriptionModel<C>>,
    after: NodeModel<R, C, S>,
    answer: Option<(R, Vec<u8>)>,
) -> bool {
    &&& after.searches == before.searches
    &&& after.streams == before.streams
    &&& match message {
        None => {
            &&& answer is None
            &&& after.subs == walked
            &&& after.requests == before.requests
        },
        Some((call, content)) => if before.requests.contains_key(call) {
            &&& answer == Some((before.requests[call], content))
            &&& after.requests == before.requests.remove(call)
            &&& after.subs == walked
        } else {
            &&& answer is None
            &&& after.requests == before.requests
            &&& if walked.len() > 0 && walked[0].id == id && walked[0].channels.contains_key(
                call,
            ) {
                exists|taken: bool| #[trigger]
                    call_ensures(try_send, (&walked[0].channels[call], content), taken) && {
                        &&& after.subs.len() == walked.len()
                        &&& forall|k: int|
                            0 < k < walked.len() ==> #[trigger] after.subs[k] == walked[k]
                        &&& after.subs[0].id == id
                        &&& after.subs[0].peer_id == walked[0].peer_id
                        &&& after.subs[0].topics == walked[0].topics
                        &&& after.subs[0].channels == if taken {
                            walked[0].channels
                        } else {
                            walked[0].channels.remove(call)
                        }
                    }
            } else {
                after.subs == walked
            }
        },
    }
}

/// A message goes to whoever it is for, and to nobody else.
pub proof fn lemma_message_goes_where_it_belongs<R, C, S, TrySend: FnOnce(&C, Vec<u8>) -> bool>(
    id: PathId,
    message: Option<(RequestId, Vec<u8>)>,
    try_send: TrySend,
)
    ensures
        forall|node: &mut Node<R, C, S>, answer: Option<(R, Vec<u8>)>| #[trigger]
            call_ensures(
                Node::<R, C, S>::subscription_response::<TrySend>,
                (node, id, message, try_send),
                answer,
            ) ==> exists|walked: Seq<SubscriptionModel<C>>| #[trigger]
                brought_first(node@.subs, id, walked) && rightly_responded(
                    node@,
                    id,
                    message,
                    try_send,
                    walked,
                    final(node)@,
                    answer,
                ),
{
    assert forall|node: &mut Node<R, C, S>, answer: Option<(R, Vec<u8>)>| #[trigger]
        call_ensures(
            Node::<R, C, S>::subscription_response::<TrySend>,
            (node, id, message, try_send),
            answer,
        ) implies exists|walked: Seq<SubscriptionModel<C>>| #[trigger]
        brought_first(node@.subs, id, walked) && rightly_responded(
            node@,
            id,
            message,
            try_send,
            walked,
            final(node)@,
            answer,
        ) by {
        let before = node@;
        let after = final(node)@;
        let walked = walked_from(before.subs, id);
        lemma_walked_from(before.subs, id);
        lemma_path_at(before.subs, id, 0);
        if let Some((call, content)) = message {
            if let Some(channel) = listener_of(before, id, call) {
                let first = before.with_first(id);
                let taken = choose|taken: bool| #[trigger]
                    call_ensures(try_send, (&channel, content), taken) && after == if taken {
                        first
                    } else {
                        first.without_listener(call)
                    };
                assert(walked[0].channels[call] == channel);
                assert(find_listener(first.subs, call, 0) == Some(0int));
                assert(call_ensures(try_send, (&walked[0].channels[call], content), taken));
            }
        }
        assert(brought_first(before.subs, id, walked));
    }
}

/// A node starts without anything that waits, and with the paths it is given, in
/// order. What it tells of itself is what it holds.
pub proof fn lemma_node_tells_what_it_holds<R, C, S>(
    given: Vec<Subscription<C>>,
    node: Node<R, C, S>,
    command: RequestInit<R, C>,
    id: RequestId,
)
    ensures
        forall|made: Node<R, C, S>| #[trigger]
            call_ensures(Node::<R, C, S>::new, (), made) ==> {
                &&& made@.subs.len() == 0
                &&& made@.requests == Map::<RequestId, R>::empty()
                &&& made@.searches == Map::<PathId, Seq<RequestInit<R, C>>>::empty()
                &&& made@.streams.len() == 0
            },
        forall|made: Node<R, C, S>| #[trigger]
            call_ensures(Node::<R, C, S>::from_paths, (given,), made) ==> {
                &&& made@.subs.len() == given@.len()
                &&& forall|i: int| 0 <= i < given@.len() ==> #[trigger] made@.subs[i] == given@[i]@
                &&& made@.requests == Map::<RequestId, R>::empty()
                &&& made@.searches == Map::<PathId, Seq<RequestInit<R, C>>>::empty()
                &&& made@.streams.len() == 0
            },
        forall|paths: &Vec<Subscription<C>>| #[trigger]
            call_ensures(Node::<R, C, S>::paths, (&node,), paths) ==> {
                &&& paths@.len() == node@.subs.len()
                &&& forall|i: int| 0 <= i < paths@.len() ==> node@.subs[i] == (
                #[trigger] paths@[i])@
            },
        forall|expected: bool| #[trigger]
            call_ensures(Node::<R, C, S>::expects, (&node, id), expected) ==> (expected
                <==> node@.requests.contains_key(id)),
        forall|searches: &HashMap<PathId, Vec<RequestInit<R, C>>>, path: PathId| #[trigger]
            call_ensures(Node::<R, C, S>::pending_topic_search, (&node,), searches) ==> (
            #[trigger] searches@.contains_key(path) <==> node@.searches.contains_key(path)) && (
            searches@.contains_key(path) ==> searches@[path]@ == node@.searches[path]),
        forall|topic: Option<Topic>, asked: Topic| #[trigger]
            call_ensures(RequestInit::<R, C>::topic, (&command,), topic) ==> (topic == Some(asked)
                <==> #[trigger] concerns(command, asked)),
{
    assert forall|paths: &Vec<Subscription<C>>| #[trigger]
        call_ensures(Node::<R, C, S>::paths, (&node,), paths) implies paths@.len()
        == node@.subs.len() && forall|i: int|
        0 <= i < paths@.len() ==> node@.subs[i] == (#[trigger] paths@[i])@ by {
        assert(paths@.map_values(|sub: Subscription<C>| sub@).len() == paths@.len());
    }
    assert forall|searches: &HashMap<PathId, Vec<RequestInit<R, C>>>, path: PathId| #[trigger]
        call_ensures(Node::<R, C, S>::pending_topic_search, (&node,), searches) implies (
    #[trigger] searches@.contains_key(path) <==> node@.searches.contains_key(path)) && (
    searches@.contains_key(path) ==> searches@[path]@ == node@.searches[path]) by {
        let held = searches@.map_values(|v: Vec<RequestInit<R, C>>| v@);
        assert(held.contains_key(path) <==> searches@.contains_key(path));
    }
}

} // verus!
