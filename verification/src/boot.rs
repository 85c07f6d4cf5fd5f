//! Start of a client: the checks and decisions between fetching the nodes from
//! the chain and running the client node.

use crate::errors::Nonce;
use crate::ids::{same_id, ChatName, Digest, Identity, NodeId, PathId, Topic};
use crate::keys::Profile;
use crate::node;
use crate::node::{Node, NodeModel, Subscription, SubscriptionModel};
use crate::route;
use crate::text;
use crate::topology;
use std::collections::HashMap;
use vstd::prelude::*;
use vstd::string::*;

verus! {

broadcast use vstd::std_specs::hash::group_hash_axioms;

/// What a starting client is busy with.
#[derive(Clone, Copy, Debug, PartialEq, Eq, Structural)]
pub enum BootPhase {
    FetchNodesAndProfile,
    InitiateConnection,
    /// The number of server keys that are still missing.
    CollecringKeys(usize),
    ProfileOpen,
    VaultLoad,
    ProfileCreate,
    ChatSearch,
    ChatRun,
}

impl BootPhase {
    /// Number of the phase, in the order in which they follow each other.
    pub open spec fn number(self) -> int {
        match self {
            BootPhase::FetchNodesAndProfile => 0,
            BootPhase::InitiateConnection => 1,
            BootPhase::CollecringKeys(_) => 2,
            BootPhase::ProfileOpen => 3,
            BootPhase::VaultLoad => 4,
            BootPhase::ProfileCreate => 5,
            BootPhase::ChatSearch => 6,
            BootPhase::ChatRun => 7,
        }
    }

    /// Number of the phase, in the order in which they follow each other.
    pub fn discriminant(&self) -> (number: u8)
        ensures
            number == self.number(),
    {
        match self {
            BootPhase::FetchNodesAndProfile => 0,
            BootPhase::InitiateConnection => 1,
            BootPhase::CollecringKeys(_) => 2,
            BootPhase::ProfileOpen => 3,
            BootPhase::VaultLoad => 4,
            BootPhase::ProfileCreate => 5,
            BootPhase::ChatSearch => 6,
            BootPhase::ChatRun => 7,
        }
    }

    /// What the user reads during the phase.
    pub open spec fn text(self) -> Seq<char> {
        match self {
            BootPhase::FetchNodesAndProfile => "fetching nodes and profile from chain..."@,
            BootPhase::InitiateConnection => "initiating orion connection..."@,
            BootPhase::CollecringKeys(left) => "collecting server keys... ("@ + text::decimal(left as nat)
                + " left)"@,
            BootPhase::ProfileOpen => "opening route to profile..."@,
            BootPhase::VaultLoad => "loading vault..."@,
            BootPhase::ProfileCreate => "creating new profile..."@,
            BootPhase::ChatSearch => "searching chats..."@,
            BootPhase::ChatRun => "ready"@,
        }
    }

    /// What the user reads during the phase.
    pub fn message(&self) -> (text: String)
        ensures
            text@ == self.text(),
    {
        match self {
            BootPhase::FetchNodesAndProfile => {
                "fetching nodes and profile from chain...".to_owned()
            },
            BootPhase::InitiateConnection => "initiating orion connection...".to_owned(),
            BootPhase::CollecringKeys(left) => {
                let mut text: String = "collecting server keys... (".to_owned();
                text::push_decimal(&mut text, *left as u64);
                text.append(" left)");
                text
            },
            BootPhase::ProfileOpen => "opening route to profile...".to_owned(),
            BootPhase::VaultLoad => "loading vault...".to_owned(),
            BootPhase::ProfileCreate => "creating new profile...".to_owned(),
            BootPhase::ChatSearch => "searching chats...".to_owned(),
            BootPhase::ChatRun => "ready".to_owned(),
        }
    }
}

/// Why a client could not start.
#[derive(Clone, Copy, Debug, PartialEq, Eq, Structural)]
pub enum BootError {
    /// The chain knows no profile under the user's name.
    ProfileNotFound,
    /// The chain knows another profile under the user's name.
    ProfileMismatch,
    /// Too few nodes shared their key.
    NotEnoughNodes { needed: usize, got: usize },
    /// The path to the node of the profile did not open.
    ProfileRoute,
    /// A path to a node that serves some chats did not open.
    ChatRoute,
}

impl BootError {
    /// What the user reads of the error.
    pub open spec fn text(self) -> Seq<char> {
        match self {
            BootError::ProfileNotFound => "profile not found"@,
            BootError::ProfileMismatch => "profile hash does not match our account"@,
            BootError::NotEnoughNodes { needed, got } => "not enough nodes in network, needed "@
                + text::decimal(needed as nat) + ", got "@ + text::decimal(got as nat),
            BootError::ProfileRoute => "opening profile route"@,
            BootError::ChatRoute => "opening chat subscription route"@,
        }
    }

    /// What the user reads of the error.
    pub fn message(&self) -> (text: String)
        ensures
            text@ == self.text(),
    {
        match self {
            BootError::ProfileNotFound => "profile not found".to_owned(),
            BootError::ProfileMismatch => "profile hash does not match our account".to_owned(),
            BootError::NotEnoughNodes { needed, got } => {
                let mut text: String = "not enough nodes in network, needed ".to_owned();
                text::push_decimal(&mut text, *needed as u64);
                text.append(", got ");
                text::push_decimal(&mut text, *got as u64);
                text
            },
            BootError::ProfileRoute => "opening profile route".to_owned(),
            BootError::ChatRoute => "opening chat subscription route".to_owned(),
        }
    }
}

/// Whether the chain has the user's own profile under their name.
fn check_profile(found: Option<Profile>, own: &Profile) -> (checked: Result<Profile, BootError>)
    ensures
        checked == match found {
            None => Err(BootError::ProfileNotFound),
            Some(profile) => if profile.sign == own.sign && profile.enc == own.enc {
                Ok(profile)
            } else {
                Err(BootError::ProfileMismatch)
            },
        },
{
    match found {
        None => Err(BootError::ProfileNotFound),
        Some(profile) => if same_id(&profile.sign, &own.sign) && same_id(&profile.enc, &own.enc) {
            Ok(profile)
        } else {
            Err(BootError::ProfileMismatch)
        },
    }
}

/// Whether enough nodes shared their key to build routes from.
fn enough_nodes(got: usize, needed: usize) -> (enough: Result<(), BootError>)
    ensures
        enough == if got >= needed {
            Ok(())
        } else {
            Err(BootError::NotEnoughNodes { needed, got })
        },
{
    if got >= needed {
        Ok(())
    } else {
        Err(BootError::NotEnoughNodes { needed, got })
    }
}

/// The node that serves the profile: one of the first `count` of those closest
/// to it, at random.
fn pick_member(closest: &Vec<NodeId>, count: usize) -> (pick: NodeId)
    requires
        closest@.len() > 0,
        count > 0,
    ensures
        topology::first_of(closest@, count as nat).contains(pick),
{
    let members: Vec<NodeId> = topology::first_members(closest, count);
    match route::pick_peer(&members) {
        Some(pick) => pick,
        None => closest[0],
    }
}

/// The user's vault as it was fetched, and the numbers of the next actions on
/// the vault and on the mail box.
pub struct FetchedVault {
    pub vault_nonce: Nonce,
    pub mail_action: Nonce,
    pub entries: Vec<(Digest, Vec<u8>)>,
}

/// `vault` is what the node of the profile answered: the numbers of the last
/// actions moved on by one, and the entries. Without an answer, everything is
/// empty.
pub open spec fn is_fetched(
    fetched: Option<(Nonce, Nonce, Vec<(Digest, Vec<u8>)>)>,
    vault: FetchedVault,
) -> bool {
    match fetched {
        Some((last_vault, last_mail, entries)) => {
            &&& vault.vault_nonce == last_vault + 1
            &&& vault.mail_action == last_mail + 1
            &&& vault.entries == entries
        },
        None => {
            &&& vault.vault_nonce == 0
            &&& vault.mail_action == 0
            &&& vault.entries@.len() == 0
        },
    }
}

impl FetchedVault {
    /// Whether the profile has yet to be created: nothing is stored, and nothing
    /// was ever done to the vault.
    pub open spec fn is_missing(self) -> bool {
        self.entries@.len() == 0 && self.vault_nonce == 0
    }

    /// Takes what the node of the profile answered: the numbers of the last
    /// actions and the entries. Where it gave no answer, everything is empty.
    pub fn new(fetched: Option<(Nonce, Nonce, Vec<(Digest, Vec<u8>)>)>) -> (vault: Self)
        requires
            fetched matches Some((last_vault, last_mail, _)) ==> last_vault < u64::MAX && last_mail
                < u64::MAX,
        ensures
            is_fetched(fetched, vault),
    {
        match fetched {
            Some((last_vault, last_mail, entries)) => FetchedVault {
                vault_nonce: last_vault + 1,
                mail_action: last_mail + 1,
                entries,
            },
            None => FetchedVault { vault_nonce: 0, mail_action: 0, entries: Vec::new() },
        }
    }

    /// Whether the profile has yet to be created.
    pub fn needs_profile(&self) -> (create: bool)
        ensures
            create == self.is_missing(),
    {
        self.entries.len() == 0 && self.vault_nonce == 0
    }

    /// Number of the first action on the mail box, which is never zero.
    pub fn first_mail_action(&self) -> (action: Nonce)
        ensures
            action == if self.mail_action == 0 {
                1
            } else {
                self.mail_action
            },
    {
        if self.mail_action == 0 {
            1
        } else {
            self.mail_action
        }
    }
}

/// A profile has to be created exactly where the node of the profile gave no
/// answer: one that answers has counted the vault's actions from one on.
pub proof fn lemma_profile_created_once(
    fetched: Option<(Nonce, Nonce, Vec<(Digest, Vec<u8>)>)>,
    vault: FetchedVault,
)
    requires
        is_fetched(fetched, vault),
    ensures
        vault.is_missing() <==> fetched is None,
{
}

/// The path to the node of the profile, which serves the profile and the chats
/// that ride along.
fn profile_subscription<C>(
    id: PathId,
    peer_id: NodeId,
    profile: Identity,
    riding: &Vec<Topic>,
) -> (sub: Subscription<C>)
    ensures
        sub@ == (SubscriptionModel::<C> {
            id,
            peer_id,
            topics: seq![Topic::Profile(profile)] + riding@,
            channels: Map::empty(),
        }),
{
    let mut topics: Vec<Topic> = Vec::new();
    topics.push(Topic::Profile(profile));
    let mut i: usize = 0;
    while i < riding.len()
        invariant
            i <= riding.len(),
            topics@ == seq![Topic::Profile(profile)] + riding@.take(i as int),
        decreases riding.len() - i,
    {
        topics.push(riding[i]);
        i = i + 1;
        assert(topics@ =~= seq![Topic::Profile(profile)] + riding@.take(i as int));
    }
    assert(riding@.take(riding@.len() as int) =~= riding@);
    Subscription { id, peer_id, topics, subscriptions: HashMap::new() }
}

/// Chats as topics.
pub open spec fn as_topics(chats: Seq<ChatName>) -> Seq<Topic> {
    chats.map_values(|chat: ChatName| Topic::Chat(chat))
}

fn to_topics(chats: &Vec<ChatName>) -> (topics: Vec<Topic>)
    ensures
        topics@ == as_topics(chats@),
{
    let mut topics: Vec<Topic> = Vec::new();
    let mut i: usize = 0;
    while i < chats.len()
        invariant
            i <= chats.len(),
            topics@ == as_topics(chats@).take(i as int),
        decreases chats.len() - i,
    {
        topics.push(Topic::Chat(chats[i]));
        i = i + 1;
        assert(topics@ =~= as_topics(chats@).take(i as int));
    }
    assert(topics@ =~= as_topics(chats@));
    topics
}

/// A path that is being opened, the node at its end and the chats asked of it.
pub type Awaited = (PathId, NodeId, Vec<ChatName>);

/// The last phase of the start: paths open one by one for the planned chats.
pub struct ChatSearch<C> {
    awaiting: Vec<Awaited>,
    subscriptions: Vec<Subscription<C>>,
    log: Ghost<Seq<BootPhase>>,
}

/// Mathematical contents of a `ChatSearch`.
#[verifier::ext_equal]
pub struct ChatSearchModel<C> {
    pub awaiting: Seq<(PathId, NodeId, Seq<ChatName>)>,
    pub subs: Seq<SubscriptionModel<C>>,
    /// The phases gone through.
    pub log: Seq<BootPhase>,
}

impl<C> View for ChatSearch<C> {
    type V = ChatSearchModel<C>;

    closed spec fn view(&self) -> ChatSearchModel<C> {
        ChatSearchModel {
            awaiting: self.awaiting@.map_values(|path: Awaited| (path.0, path.1, path.2@)),
            subs: self.subscriptions@.map_values(|sub: Subscription<C>| sub@),
            log: self.log@,
        }
    }
}

/// The first place from `from` on at which path `id` is awaited.
pub open spec fn awaited_at(
    awaiting: Seq<(PathId, NodeId, Seq<ChatName>)>,
    id: PathId,
    from: int,
) -> Option<int>
    decreases awaiting.len() - from,
{
    if from >= awaiting.len() {
        None
    } else if awaiting[from].0 == id {
        Some(from)
    } else {
        awaited_at(awaiting, id, from + 1)
    }
}

/// What becomes of the search when path `id` came up, or failed to. A path that
/// is not awaited changes nothing. One that is awaited is so no longer, and
/// serves the chats planned for it where it came up. Where it failed, the start
/// has failed.
pub open spec fn path_came_up<C>(
    before: ChatSearchModel<C>,
    id: PathId,
    opened: bool,
    outcome: Result<(ChatSearchModel<C>, bool), BootError>,
) -> bool {
    match awaited_at(before.awaiting, id, 0) {
        None => outcome == Ok::<(ChatSearchModel<C>, bool), BootError>((before, false)),
        Some(i) => if opened {
            let (_, peer_id, chats) = before.awaiting[i];
            outcome == Ok::<(ChatSearchModel<C>, bool), BootError>(
                (
                    ChatSearchModel {
                        awaiting: before.awaiting.remove(i),
                        subs: seq![
                            SubscriptionModel {
                                id,
                                peer_id,
                                topics: as_topics(chats),
                                channels: Map::empty(),
                            },
                        ] + before.subs,
                        log: before.log,
                    },
                    true,
                ),
            )
        } else {
            outcome == Err::<(ChatSearchModel<C>, bool), BootError>(BootError::ChatRoute)
        },
    }
}

impl<C> ChatSearch<C> {
    /// Chats are being searched for.
    pub open spec fn wf(self) -> bool {
        reached(self@.log, 6)
    }

    /// The paths that are being opened.
    pub fn awaiting(&self) -> (awaiting: &Vec<Awaited>)
        ensures
            awaiting@.map_values(|path: Awaited| (path.0, path.1, path.2@)) == self@.awaiting,
    {
        &self.awaiting
    }

    /// The paths that are open, the latest first and the one to the node of the
    /// profile last.
    pub fn paths(&self) -> (paths: &Vec<Subscription<C>>)
        ensures
            paths@.map_values(|sub: Subscription<C>| sub@) == self@.subs,
    {
        &self.subscriptions
    }

    /// Path `id` came up, or failed to. Tells whether it was awaited; one that
    /// was and failed ends the start.
    pub fn outbound_stream(self, id: PathId, opened: bool) -> (outcome: Result<
        (Self, bool),
        BootError,
    >)
        requires
            self.wf(),
        ensures
            match outcome {
                Ok((next, expected)) => {
                    &&& next.wf()
                    &&& path_came_up(self@, id, opened, Ok((next@, expected)))
                },
                Err(error) => path_came_up(self@, id, opened, Err(error)),
            },
    {
        let ghost before = self@;
        let mut search: Self = self;
        let mut i: usize = 0;
        while i < search.awaiting.len()
            invariant
                i <= search.awaiting@.len(),
                search@ == before,
                before == self@,
                reached(before.log, 6),
                awaited_at(before.awaiting, id, 0) == awaited_at(before.awaiting, id, i as int),
            decreases search.awaiting.len() - i,
        {
            let ghost found = search.awaiting@[i as int];
            assert(before.awaiting[i as int] == (found.0, found.1, found.2@));
            if search.awaiting[i].0 == id {
                if !opened {
                    return Err(BootError::ChatRoute);
                }
                let (_, peer_id, chats) = search.awaiting.remove(i);
                assert(search@.awaiting =~= before.awaiting.remove(i as int));
                let sub = Subscription::<C> {
                    id,
                    peer_id,
                    topics: to_topics(&chats),
                    subscriptions: HashMap::new(),
                };
                let ghost pushed = sub@;
                search.subscriptions.insert(0, sub);
                assert(search@.subs =~= seq![pushed] + before.subs);
                return Ok((search, true));
            }
            i = i + 1;
        }
        Ok((search, false))
    }

    /// Whether no path is awaited any more.
    pub fn is_done(&self) -> (done: bool)
        ensures
            done == (self@.awaiting.len() == 0),
    {
        self.awaiting.len() == 0
    }

    /// The client node with the paths that opened, once none is awaited. The
    /// client reports that it runs, which ends its start.
    pub fn into_node<R, S, Report: FnOnce(BootPhase)>(self, report: Report) -> (node: Node<R, C, S>)
        requires
            self.wf(),
            self@.awaiting.len() == 0,
            call_requires(report, (BootPhase::ChatRun,)),
        ensures
            node@.wf(),
            node@ == (NodeModel::<R, C, S> {
                subs: self@.subs,
                requests: Map::empty(),
                searches: Map::empty(),
                streams: Seq::empty(),
            }),
            call_ensures(report, (BootPhase::ChatRun,), ()),
            reached(self@.log.push(BootPhase::ChatRun), 7),
    {
        report(BootPhase::ChatRun);
        proof {
            lemma_next_phase(self@.log, BootPhase::ChatRun);
        }
        Node::from_paths(self.subscriptions)
    }
}

/// Whether a path for `chat` is open or awaited.
pub open spec fn provided<C>(search: ChatSearchModel<C>, chat: ChatName) -> bool {
    ||| node::served(search.subs, Topic::Chat(chat))
    ||| awaits(search, chat)
}

/// Whether an awaited path is for `chat`.
pub open spec fn awaits<C>(search: ChatSearchModel<C>, chat: ChatName) -> bool {
    exists|i: int|
        0 <= i < search.awaiting.len() && (#[trigger] search.awaiting[i]).2.contains(chat)
}

proof fn lemma_awaited_at(
    awaiting: Seq<(PathId, NodeId, Seq<ChatName>)>,
    id: PathId,
    from: int,
)
    requires
        0 <= from,
    ensures
        awaited_at(awaiting, id, from) matches Some(i) ==> from <= i < awaiting.len(),
    decreases awaiting.len() - from,
{
    if from < awaiting.len() {
        lemma_awaited_at(awaiting, id, from + 1);
    }
}

/// No planned chat is forgotten: as long as no awaited path fails, a chat that
/// is provided for stays so, and is served once no path is awaited any more.
pub proof fn lemma_chats_stay_provided<C>(
    before: ChatSearchModel<C>,
    id: PathId,
    opened: bool,
    after: ChatSearchModel<C>,
    expected: bool,
    chat: ChatName,
)
    requires
        path_came_up(before, id, opened, Ok((after, expected))),
        provided(before, chat),
    ensures
        provided(after, chat),
        after.awaiting.len() == 0 ==> node::served(after.subs, Topic::Chat(chat)),
{
    lemma_awaited_at(before.awaiting, id, 0);
    match awaited_at(before.awaiting, id, 0) {
        None => {},
        Some(at) => {
            let chats = before.awaiting[at].2;
            let n = before.subs.len() as int;
            if node::served(before.subs, Topic::Chat(chat)) {
                let i = choose|i: int|
                    0 <= i < n && (#[trigger] before.subs[i]).topics.contains(Topic::Chat(chat));
                assert(after.subs[i + 1].topics.contains(Topic::Chat(chat)));
            } else {
                let i = choose|i: int|
                    0 <= i < before.awaiting.len() && (
                    #[trigger] before.awaiting[i]).2.contains(chat);
                if i == at {
                    let k = choose|k: int| 0 <= k < chats.len() && chats[k] == chat;
                    assert(after.subs[0].topics[k] == Topic::Chat(chat));
                    assert(after.subs[0].topics.contains(Topic::Chat(chat)));
                } else {
                    let j = if i < at {
                        i
                    } else {
                        i - 1
                    };
                    assert(after.awaiting[j] == before.awaiting[i]);
                    assert(awaits(after, chat));
                }
            }
        },
    }
    if after.awaiting.len() == 0 {
        assert(!awaits(after, chat));
    }
}

/// A client that runs serves every chat that it provides for: once no path is
/// awaited, each has a path that is open.
pub proof fn lemma_running_client_serves_its_chats<R, C, S>(
    search: ChatSearchModel<C>,
    node: NodeModel<R, C, S>,
    chat: ChatName,
)
    requires
        provided(search, chat),
        search.awaiting.len() == 0,
        node.subs == search.subs,
    ensures
        node::served(node.subs, Topic::Chat(chat)),
{
    assert(!awaits(search, chat));
}

/// A client that starts with the paths planned for its chats provides for every
/// one of them.
pub proof fn lemma_start_provides_every_chat<C>(
    members: Seq<(ChatName, Vec<NodeId>)>,
    count: nat,
    profile_peer: NodeId,
    search: ChatSearchModel<C>,
    chat: ChatName,
)
    requires
        topology::names(members).no_duplicates(),
        forall|k: int|
            0 <= k < members.len() ==> #[trigger] topology::has_other_member(
                members,
                count,
                k,
                profile_peer,
            ),
        nodes_of(search.awaiting) == topology::cover(
            topology::by_size(topology::other_nodes(members, count, profile_peer)),
            Seq::empty(),
            members.len(),
        ),
        topology::names(members).contains(chat),
    ensures
        provided(search, chat),
{
    let nodes = topology::other_nodes(members, count, profile_peer);
    let chats = topology::names(members);
    let plan = topology::cover(topology::by_size(nodes), Seq::empty(), members.len());
    topology::lemma_other_nodes_serve_the_chats(members, count, profile_peer);
    topology::lemma_plan_serves_every_chat(nodes, chats);
    assert(topology::planned(plan, chat));
    let i = choose|i: int| 0 <= i < plan.len() && (#[trigger] plan[i]).1.contains(chat);
    assert(search.awaiting[i].2.contains(chat));
    assert(awaits(search, chat));
}

/// A path to `peer` is there for `topic` with reason: the topic is one of the chats,
/// and `peer` is one of its first members.
pub open spec fn rightly_served(
    members: Seq<(ChatName, Vec<NodeId>)>,
    count: nat,
    peer: NodeId,
    topic: Topic,
) -> bool {
    exists|k: int| #[trigger]
        topology::is_member(members, count, k, peer) && topic == Topic::Chat(members[k].0)
}

/// `paths`, each a node with the topics it serves, share the chats out. Every chat is
/// on exactly one of them and none has another topic. None is without topics, and
/// each ends at a node that is one of the first members of its chats, which is never
/// the node of the profile.
pub open spec fn shares_out(
    paths: Seq<(NodeId, Seq<Topic>)>,
    members: Seq<(ChatName, Vec<NodeId>)>,
    count: nat,
    profile_peer: NodeId,
) -> bool {
    &&& forall|i: int|
        0 <= i < paths.len() ==> {
            &&& (#[trigger] paths[i]).0 != profile_peer
            &&& paths[i].1.len() > 0
            &&& paths[i].1.no_duplicates()
        }
    &&& forall|i: int, topic: Topic|
        0 <= i < paths.len() && #[trigger] paths[i].1.contains(topic) ==> rightly_served(
            members,
            count,
            paths[i].0,
            topic,
        )
    &&& forall|i: int, j: int, topic: Topic|
        0 <= i < paths.len() && 0 <= j < paths.len() && #[trigger] paths[i].1.contains(topic)
            && #[trigger] paths[j].1.contains(topic) ==> i == j
    &&& forall|k: int|
        0 <= k < members.len() ==> on_some_path(paths, Topic::Chat((#[trigger] members[k]).0))
}

/// Some path serves `topic`.
pub open spec fn on_some_path(paths: Seq<(NodeId, Seq<Topic>)>, topic: Topic) -> bool {
    exists|i: int| 0 <= i < paths.len() && (#[trigger] paths[i]).1.contains(topic)
}

/// The paths other than the profile's, which comes last, each with its node and its
/// topics.
pub open spec fn other_paths<C>(subs: Seq<SubscriptionModel<C>>) -> Seq<(NodeId, Seq<Topic>)> {
    subs.drop_last().map_values(|sub: SubscriptionModel<C>| (sub.peer_id, sub.topics))
}

/// The paths that are open, but for the profile's, and those that are awaited.
spec fn all_paths<C>(search: ChatSearchModel<C>) -> Seq<(NodeId, Seq<Topic>)> {
    other_paths(search.subs) + search.awaiting.map_values(
        |path: (PathId, NodeId, Seq<ChatName>)| (path.1, as_topics(path.2)),
    )
}

/// The order of the paths says nothing of how they share the chats out.
proof fn lemma_moved_path(
    before: Seq<(NodeId, Seq<Topic>)>,
    at: int,
    after: Seq<(NodeId, Seq<Topic>)>,
    members: Seq<(ChatName, Vec<NodeId>)>,
    count: nat,
    profile_peer: NodeId,
)
    requires
        0 <= at < before.len(),
        after == seq![before[at]] + before.remove(at),
        shares_out(before, members, count, profile_peer),
    ensures
        shares_out(after, members, count, profile_peer),
{
    let was = |i: int|
        if i == 0 {
            at
        } else if i <= at {
            i - 1
        } else {
            i
        };
    assert forall|i: int| 0 <= i < after.len() implies #[trigger] after[i] == before[was(i)] by {}
    assert forall|i: int, topic: Topic|
        0 <= i < after.len() && #[trigger] after[i].1.contains(topic) implies rightly_served(
        members,
        count,
        after[i].0,
        topic,
    ) by {
        assert(before[was(i)].1.contains(topic));
    }
    assert forall|i: int, j: int, topic: Topic|
        0 <= i < after.len() && 0 <= j < after.len() && #[trigger] after[i].1.contains(topic)
            && #[trigger] after[j].1.contains(topic) implies i == j by {
        assert(before[was(i)].1.contains(topic) && before[was(j)].1.contains(topic));
    }
    assert forall|k: int| 0 <= k < members.len() implies on_some_path(
        after,
        Topic::Chat((#[trigger] members[k]).0),
    ) by {
        let topic = Topic::Chat(members[k].0);
        assert(on_some_path(before, topic));
        let j = choose|j: int| 0 <= j < before.len() && (#[trigger] before[j]).1.contains(topic);
        let i = if j == at {
            0
        } else if j < at {
            j + 1
        } else {
            j
        };
        assert(after[i] == before[j]);
    }
}

/// A path that comes up goes on sharing the chats out with the others.
proof fn lemma_shares_kept<C>(
    before: ChatSearchModel<C>,
    id: PathId,
    opened: bool,
    after: ChatSearchModel<C>,
    expected: bool,
    members: Seq<(ChatName, Vec<NodeId>)>,
    count: nat,
    profile_peer: NodeId,
)
    requires
        path_came_up(before, id, opened, Ok((after, expected))),
        before.subs.len() > 0,
        shares_out(all_paths(before), members, count, profile_peer),
    ensures
        after.subs.len() > 0,
        after.subs.last() == before.subs.last(),
        shares_out(all_paths(after), members, count, profile_peer),
{
    lemma_awaited_at(before.awaiting, id, 0);
    match awaited_at(before.awaiting, id, 0) {
        None => {},
        Some(i) => {
            let at = before.subs.len() - 1 + i;
            let paths = all_paths(before);
            assert(other_paths(after.subs) =~= seq![paths[at]] + other_paths(before.subs));
            assert(all_paths(after) =~= seq![paths[at]] + paths.remove(at));
            lemma_moved_path(paths, at, all_paths(after), members, count, profile_peer);
        },
    }
}

/// The plan shares the chats out.
proof fn lemma_plan_shares_out<C>(
    members: Seq<(ChatName, Vec<NodeId>)>,
    count: nat,
    profile_peer: NodeId,
    search: ChatSearchModel<C>,
)
    requires
        topology::names(members).no_duplicates(),
        forall|k: int|
            0 <= k < members.len() ==> #[trigger] topology::has_other_member(
                members,
                count,
                k,
                profile_peer,
            ),
        search.subs.len() == 1,
        nodes_of(search.awaiting) == topology::cover(
            topology::by_size(topology::other_nodes(members, count, profile_peer)),
            Seq::empty(),
            members.len(),
        ),
    ensures
        shares_out(all_paths(search), members, count, profile_peer),
{
    let nodes = topology::other_nodes(members, count, profile_peer);
    let chats = topology::names(members);
    let plan = topology::cover(topology::by_size(nodes), Seq::empty(), members.len());
    let paths = all_paths(search);
    topology::lemma_other_nodes_serve_the_chats(members, count, profile_peer);
    topology::lemma_plan_serves_every_chat(nodes, chats);
    assert(paths.len() == plan.len());
    assert forall|i: int| 0 <= i < plan.len() implies #[trigger] paths[i] == (
        plan[i].0,
        as_topics(plan[i].1),
    ) by {
        assert(nodes_of(search.awaiting)[i] == plan[i]);
    }
    assert forall|i: int, chat: ChatName|
        0 <= i < plan.len() && #[trigger] plan[i].1.contains(chat) implies plan[i].0
        != profile_peer && rightly_served(members, count, plan[i].0, Topic::Chat(chat)) by {
        assert(topology::takes_part(plan[i], nodes));
        let j = choose|j: int|
            {
                &&& 0 <= j < nodes.len()
                &&& (#[trigger] nodes[j]).0 == plan[i].0
                &&& forall|chat: ChatName| #[trigger]
                    plan[i].1.contains(chat) ==> nodes[j].1.contains(chat)
            };
        assert(topology::lists(nodes, plan[i].0, chat));
        topology::lemma_split_is_faithful(
            topology::candidates_of(members, count),
            profile_peer,
            plan[i].0,
            chat,
        );
        topology::lemma_candidates(members, count, plan[i].0, chat);
        let k = choose|k: int| #[trigger]
            topology::is_member(members, count, k, plan[i].0) && members[k].0 == chat;
        assert(topology::is_member(members, count, k, plan[i].0));
    }
    assert forall|i: int, topic: Topic|
        0 <= i < paths.len() && #[trigger] paths[i].1.contains(topic) implies topic is Chat
        && plan[i].1.contains(topic->Chat_0) by {
        let at = choose|at: int| 0 <= at < paths[i].1.len() && paths[i].1[at] == topic;
        assert(topic == Topic::Chat(plan[i].1[at]));
    }
    assert forall|i: int| 0 <= i < paths.len() implies {
        &&& (#[trigger] paths[i]).0 != profile_peer
        &&& paths[i].1.len() > 0
        &&& paths[i].1.no_duplicates()
    } by {
        assert(plan[i].1.len() > 0 && plan[i].1.no_duplicates());
        assert(plan[i].1.contains(plan[i].1[0]));
    }
    assert forall|i: int, j: int, topic: Topic|
        0 <= i < paths.len() && 0 <= j < paths.len() && #[trigger] paths[i].1.contains(topic)
            && #[trigger] paths[j].1.contains(topic) implies i == j by {
        let chat = topic->Chat_0;
        assert(plan[i].1.contains(chat) && plan[j].1.contains(chat));
        if i < j {
            assert(topology::disjoint_chats(plan[i].1, plan[j].1));
        } else if j < i {
            assert(topology::disjoint_chats(plan[j].1, plan[i].1));
        }
    }
    assert forall|k: int| 0 <= k < members.len() implies on_some_path(
        paths,
        Topic::Chat((#[trigger] members[k]).0),
    ) by {
        let chat = members[k].0;
        assert(chats[k] == chat);
        assert(topology::planned(plan, chat));
        let i = choose|i: int| 0 <= i < plan.len() && (#[trigger] plan[i]).1.contains(chat);
        let at = choose|at: int| 0 <= at < plan[i].1.len() && plan[i].1[at] == chat;
        assert(paths[i].1[at] == Topic::Chat(chat));
    }
}

/// A path came up, or one that is not awaited did not, which took the search from
/// `before` to `after`.
pub open spec fn advanced<C>(before: ChatSearchModel<C>, after: ChatSearchModel<C>) -> bool {
    exists|id: PathId, opened: bool, expected: bool| #[trigger]
        path_came_up(before, id, opened, Ok((after, expected)))
}

/// A client runs with the paths that were planned for its chats, in whichever order
/// they came up. `run` is the search from the plan on, step by step, until nothing
/// is awaited; `node` is the client that comes of it. Behind the paths for the chats
/// comes the path of the profile. Every chat is on exactly one of the others, which
/// have no other topics. None of them is without topics, and each ends at one of the
/// first members of its chats, never at the node of the profile.
pub proof fn lemma_running_client_follows_the_plan<R, C, S>(
    members: Seq<(ChatName, Vec<NodeId>)>,
    count: nat,
    profile_peer: NodeId,
    run: Seq<ChatSearchModel<C>>,
    node: NodeModel<R, C, S>,
)
    requires
        topology::names(members).no_duplicates(),
        forall|k: int|
            0 <= k < members.len() ==> #[trigger] topology::has_other_member(
                members,
                count,
                k,
                profile_peer,
            ),
        run.len() > 0,
        run[0].subs.len() == 1,
        nodes_of(run[0].awaiting) == topology::cover(
            topology::by_size(topology::other_nodes(members, count, profile_peer)),
            Seq::empty(),
            members.len(),
        ),
        forall|k: int| 0 < k < run.len() ==> advanced(run[k - 1], #[trigger] run[k]),
        run.last().awaiting.len() == 0,
        node.subs == run.last().subs,
    ensures
        node.subs.len() > 0,
        node.subs.last() == run[0].subs[0],
        shares_out(other_paths(node.subs), members, count, profile_peer),
{
    lemma_plan_shares_out(members, count, profile_peer, run[0]);
    lemma_shares_kept_all_along(members, count, profile_peer, run, run.len() - 1);
    assert(all_paths(run.last()) =~= other_paths(node.subs));
}

/// The chats stay shared out, and the path of the profile stays last, at every step.
proof fn lemma_shares_kept_all_along<C>(
    members: Seq<(ChatName, Vec<NodeId>)>,
    count: nat,
    profile_peer: NodeId,
    run: Seq<ChatSearchModel<C>>,
    k: int,
)
    requires
        0 <= k < run.len(),
        run[0].subs.len() > 0,
        shares_out(all_paths(run[0]), members, count, profile_peer),
        forall|k: int| 0 < k < run.len() ==> advanced(run[k - 1], #[trigger] run[k]),
    ensures
        run[k].subs.len() > 0,
        run[k].subs.last() == run[0].subs.last(),
        shares_out(all_paths(run[k]), members, count, profile_peer),
    decreases k,
{
    if k > 0 {
        lemma_shares_kept_all_along(members, count, profile_peer, run, k - 1);
        assert(advanced(run[k - 1], run[k]));
        let (id, opened, expected) = choose|id: PathId, opened: bool, expected: bool| #[trigger]
            path_came_up(run[k - 1], id, opened, Ok((run[k], expected)));
        lemma_shares_kept(
            run[k - 1],
            id,
            opened,
            run[k],
            expected,
            members,
            count,
            profile_peer,
        );
    }
}

/// Some phase in `log` has this number.
pub open spec fn went_through(log: Seq<BootPhase>, number: int) -> bool {
    exists|i: int| 0 <= i < log.len() && (#[trigger] log[i]).number() == number
}

/// `log` lists the phases that a client which is now in phase `number` went
/// through. They come in order, only the collection of keys is listed more than
/// once, and none is left out but the creation of the profile.
pub open spec fn reached(log: Seq<BootPhase>, number: int) -> bool {
    &&& log.len() > 0
    &&& log.last().number() == number
    &&& forall|i: int, j: int|
        0 <= i < j < log.len() ==> (#[trigger] log[i]).number() < (#[trigger] log[j]).number() || (
        log[i] is CollecringKeys && log[j] is CollecringKeys)
    &&& forall|n: int|
        0 <= n <= number && n != BootPhase::ProfileCreate.number() ==> #[trigger] went_through(
            log,
            n,
        )
}

/// A client goes from one phase to the next. The keys are collected for as long
/// as it takes, and the creation of the profile may be left out.
proof fn lemma_next_phase(log: Seq<BootPhase>, phase: BootPhase)
    requires
        reached(log, log.last().number()),
        ({
            ||| phase.number() == log.last().number() + 1
            ||| phase is CollecringKeys && log.last() is CollecringKeys
            ||| phase is ChatSearch && log.last() is VaultLoad
        }),
    ensures
        reached(log.push(phase), phase.number()),
{
    let after = log.push(phase);
    assert forall|i: int, j: int| 0 <= i < j < after.len() implies (
    #[trigger] after[i]).number() < (#[trigger] after[j]).number() || (after[i] is CollecringKeys
        && after[j] is CollecringKeys) by {
        if j == log.len() && i < log.len() - 1 {
            assert(log[i].number() < log.last().number() || log[i] is CollecringKeys);
        }
    }
    assert forall|n: int|
        0 <= n <= phase.number() && n != BootPhase::ProfileCreate.number() implies #[trigger]
    went_through(after, n) by {
        if n == phase.number() {
            assert(after[log.len() as int].number() == n);
        } else {
            assert(went_through(log, n));
            let i = choose|i: int| 0 <= i < log.len() && (#[trigger] log[i]).number() == n;
            assert(after[i].number() == n);
        }
    }
}

/// A start begins with fetching, never goes back to an earlier phase, and repeats
/// none but the collection of keys. The client runs in the last phase and in no
/// other.
pub proof fn lemma_phases_in_order(log: Seq<BootPhase>, number: int)
    requires
        0 <= number < 8,
        reached(log, number),
    ensures
        log[0] == BootPhase::FetchNodesAndProfile,
        forall|i: int, j: int|
            0 <= i <= j < log.len() ==> (#[trigger] log[i]).number() <= (
            #[trigger] log[j]).number(),
        forall|i: int, j: int|
            0 <= i < j < log.len() && (#[trigger] log[i]).number() == (#[trigger] log[j]).number()
                ==> log[i] is CollecringKeys,
        forall|i: int|
            0 <= i < log.len() ==> ((#[trigger] log[i] is ChatRun) <==> number == 7 && i == log.len()
                - 1),
{
    assert(went_through(log, 0));
    let first = choose|i: int| 0 <= i < log.len() && (#[trigger] log[i]).number() == 0;
    if first > 0 {
        assert(log[0].number() < log[first].number());
    }
    assert forall|i: int| 0 <= i < log.len() implies ((#[trigger] log[i] is ChatRun) <==> number
        == 7 && i == log.len() - 1) by {
        let last = log.len() - 1;
        if i < last {
            assert(log[i].number() < log[last].number() || log[last] is CollecringKeys);
        }
    }
}

/// First stage of the start: the nodes and the profile are being fetched.
pub struct Fetching {
    own: Profile,
    log: Ghost<Seq<BootPhase>>,
}

/// Second stage: the profile is known, and the client gets ready to connect.
pub struct Connecting {
    profile: Profile,
    node_count: usize,
    log: Ghost<Seq<BootPhase>>,
}

/// Third stage: servers share their keys.
pub struct Collecting {
    profile: Profile,
    node_count: usize,
    log: Ghost<Seq<BootPhase>>,
}

/// Fourth stage: a path to the node of the profile is being opened.
pub struct ProfileOpening {
    profile: Profile,
    peer: NodeId,
    path: PathId,
    log: Ghost<Seq<BootPhase>>,
}

/// Fifth stage: the path is open and the vault is being loaded.
pub struct VaultLoading {
    profile: Profile,
    peer: NodeId,
    path: PathId,
    log: Ghost<Seq<BootPhase>>,
}

/// Sixth stage: the vault is known, and the profile may have to be created.
pub struct Planning {
    profile: Profile,
    peer: NodeId,
    path: PathId,
    vault: FetchedVault,
    log: Ghost<Seq<BootPhase>>,
}

/// What is known before the profile was found: the user's own, and the phases
/// gone through.
#[verifier::ext_equal]
pub struct FetchingModel {
    pub own: Profile,
    pub log: Seq<BootPhase>,
}

/// What is known before a path is opened: the profile, how many servers there
/// are, and the phases gone through.
#[verifier::ext_equal]
pub struct ServersModel {
    pub profile: Profile,
    pub node_count: usize,
    pub log: Seq<BootPhase>,
}

/// What is known once a path to the node of the profile is opened: the profile,
/// that node, the path, and the phases gone through.
#[verifier::ext_equal]
pub struct RouteModel {
    pub profile: Profile,
    pub peer: NodeId,
    pub path: PathId,
    pub log: Seq<BootPhase>,
}

/// What is known once the vault was fetched.
#[verifier::ext_equal]
pub struct PlanningModel {
    pub profile: Profile,
    pub peer: NodeId,
    pub path: PathId,
    pub vault: FetchedVault,
    pub log: Seq<BootPhase>,
}

impl View for Fetching {
    type V = FetchingModel;

    closed spec fn view(&self) -> FetchingModel {
        FetchingModel { own: self.own, log: self.log@ }
    }
}

impl View for Connecting {
    type V = ServersModel;

    closed spec fn view(&self) -> ServersModel {
        ServersModel { profile: self.profile, node_count: self.node_count, log: self.log@ }
    }
}

impl View for Collecting {
    type V = ServersModel;

    closed spec fn view(&self) -> ServersModel {
        ServersModel { profile: self.profile, node_count: self.node_count, log: self.log@ }
    }
}

impl View for ProfileOpening {
    type V = RouteModel;

    closed spec fn view(&self) -> RouteModel {
        RouteModel { profile: self.profile, peer: self.peer, path: self.path, log: self.log@ }
    }
}

impl View for VaultLoading {
    type V = RouteModel;

    closed spec fn view(&self) -> RouteModel {
        RouteModel { profile: self.profile, peer: self.peer, path: self.path, log: self.log@ }
    }
}

impl View for Planning {
    type V = PlanningModel;

    closed spec fn view(&self) -> PlanningModel {
        PlanningModel {
            profile: self.profile,
            peer: self.peer,
            path: self.path,
            vault: self.vault,
            log: self.log@,
        }
    }
}

/// What an opened path means to a client that waits for the one to the node of
/// its profile.
pub enum RouteStep {
    /// It is another path: wait on.
    Wait(ProfileOpening),
    /// It is the path: load the vault over it.
    Load(VaultLoading),
    /// The path did not open.
    Fail(BootError),
}

impl Fetching {
    /// The client is fetching, and has been through nothing else.
    pub open spec fn wf(self) -> bool {
        reached(self@.log, 0)
    }

    /// A client starts, and reports that it fetches. `own` is the user's own
    /// profile.
    pub fn start<Report: FnOnce(BootPhase)>(own: Profile, report: Report) -> (stage: Self)
        requires
            call_requires(report, (BootPhase::FetchNodesAndProfile,)),
        ensures
            stage.wf(),
            stage@ == (FetchingModel { own, log: seq![BootPhase::FetchNodesAndProfile] }),
            call_ensures(report, (BootPhase::FetchNodesAndProfile,), ()),
    {
        report(BootPhase::FetchNodesAndProfile);
        let ghost log = seq![BootPhase::FetchNodesAndProfile];
        let stage = Fetching { own, log: Ghost(log) };
        assert(stage@.log[0].number() == 0);
        assert(went_through(stage@.log, 0));
        stage
    }

    /// The chain told the profile under the user's name and how many servers
    /// there are. Where the profile is the user's own, the client reports that it
    /// connects.
    pub fn fetched<Report: FnOnce(BootPhase)>(
        self,
        found: Option<Profile>,
        node_count: usize,
        report: Report,
    ) -> (next: Result<Connecting, BootError>)
        requires
            self.wf(),
            (found matches Some(profile) && profile.sign == self@.own.sign && profile.enc
                == self@.own.enc) ==> call_requires(report, (BootPhase::InitiateConnection,)),
        ensures
            match found {
                None => next == Err::<Connecting, BootError>(BootError::ProfileNotFound),
                Some(profile) => if profile.sign == self@.own.sign && profile.enc == self@.own.enc {
                    next matches Ok(stage) && {
                        &&& stage.wf()
                        &&& stage@ == (ServersModel {
                            profile,
                            node_count,
                            log: self@.log.push(BootPhase::InitiateConnection),
                        })
                        &&& call_ensures(report, (BootPhase::InitiateConnection,), ())
                    }
                } else {
                    next == Err::<Connecting, BootError>(BootError::ProfileMismatch)
                },
            },
    {
        match check_profile(found, &self.own) {
            Ok(profile) => {
                report(BootPhase::InitiateConnection);
                proof {
                    lemma_next_phase(self@.log, BootPhase::InitiateConnection);
                }
                Ok(
                    Connecting {
                        profile,
                        node_count,
                        log: Ghost(self.log@.push(BootPhase::InitiateConnection)),
                    },
                )
            },
            Err(error) => Err(error),
        }
    }
}

impl Connecting {
    /// The client is getting ready to connect.
    pub open spec fn wf(self) -> bool {
        reached(self@.log, 1)
    }

    /// The client can be reached. It reports that the keys of all servers but
    /// `keys` are missing.
    pub fn connected<Report: FnOnce(BootPhase)>(self, keys: usize, report: Report) -> (stage:
        Collecting)
        requires
            self.wf(),
            keys <= self@.node_count,
            call_requires(
                report,
                (BootPhase::CollecringKeys((self@.node_count - keys) as usize),),
            ),
        ensures
            stage.wf(),
            stage@ == (ServersModel {
                log: self@.log.push(BootPhase::CollecringKeys((self@.node_count - keys) as usize)),
                ..self@
            }),
            call_ensures(
                report,
                (BootPhase::CollecringKeys((self@.node_count - keys) as usize),),
                (),
            ),
    {
        let phase: BootPhase = BootPhase::CollecringKeys(self.node_count - keys);
        report(phase);
        proof {
            lemma_next_phase(self@.log, phase);
        }
        Collecting {
            profile: self.profile,
            node_count: self.node_count,
            log: Ghost(self.log@.push(phase)),
        }
    }
}

impl Collecting {
    /// Keys are being collected.
    pub open spec fn wf(self) -> bool {
        reached(self@.log, 2)
    }

    /// The profile that the chain has under the user's name.
    pub fn profile(&self) -> (profile: &Profile)
        ensures
            *profile == self@.profile,
    {
        &self.profile
    }

    /// How many servers there are.
    pub fn node_count(&self) -> (count: usize)
        ensures
            count == self@.node_count,
    {
        self.node_count
    }

    /// `keys` servers have shared their key by now. The client reports how many
    /// are missing. Tells whether that was the last one.
    pub fn progress<Report: FnOnce(BootPhase)>(&mut self, keys: usize, report: Report) -> (done:
        bool)
        requires
            old(self).wf(),
            keys <= old(self)@.node_count,
            call_requires(
                report,
                (BootPhase::CollecringKeys((old(self)@.node_count - keys) as usize),),
            ),
        ensures
            final(self).wf(),
            final(self)@ == (ServersModel {
                log: old(self)@.log.push(
                    BootPhase::CollecringKeys((old(self)@.node_count - keys) as usize),
                ),
                ..old(self)@
            }),
            call_ensures(
                report,
                (BootPhase::CollecringKeys((old(self)@.node_count - keys) as usize),),
                (),
            ),
            done == (keys == old(self)@.node_count),
    {
        let left: usize = self.node_count - keys;
        let phase: BootPhase = BootPhase::CollecringKeys(left);
        report(phase);
        proof {
            assert(self@.log.last() is CollecringKeys);
            lemma_next_phase(self@.log, phase);
        }
        self.log = Ghost(self.log@.push(phase));
        left == 0
    }

    /// All keys were shared, or the time for it is over. With at least `needed`
    /// keys the client reports so, and opens a path to one of the first `count` of
    /// those closest to the profile.
    pub fn collected<Report: FnOnce(BootPhase), Open: FnOnce(NodeId) -> PathId>(
        self,
        keys: usize,
        needed: usize,
        closest: &Vec<NodeId>,
        count: usize,
        report: Report,
        open_path: Open,
    ) -> (next: Result<ProfileOpening, BootError>)
        requires
            self.wf(),
            keys >= needed ==> closest@.len() > 0 && count > 0,
            keys >= needed ==> call_requires(report, (BootPhase::ProfileOpen,)),
            forall|peer: NodeId|
                keys >= needed && #[trigger] topology::first_of(closest@, count as nat).contains(
                    peer,
                ) ==> call_requires(open_path, (peer,)),
        ensures
            match next {
                Ok(next) => {
                    &&& keys >= needed
                    &&& next.wf()
                    &&& next@.profile == self@.profile
                    &&& topology::first_of(closest@, count as nat).contains(next@.peer)
                    &&& call_ensures(open_path, (next@.peer,), next@.path)
                    &&& next@.log == self@.log.push(BootPhase::ProfileOpen)
                    &&& call_ensures(report, (BootPhase::ProfileOpen,), ())
                },
                Err(error) => {
                    &&& keys < needed
                    &&& error == BootError::NotEnoughNodes { needed, got: keys }
                },
            },
    {
        match enough_nodes(keys, needed) {
            Ok(()) => {
                report(BootPhase::ProfileOpen);
                proof {
                    lemma_next_phase(self@.log, BootPhase::ProfileOpen);
                }
                let peer: NodeId = pick_member(closest, count);
                let path: PathId = open_path(peer);
                Ok(
                    ProfileOpening {
                        profile: self.profile,
                        peer,
                        path,
                        log: Ghost(self.log@.push(BootPhase::ProfileOpen)),
                    },
                )
            },
            Err(error) => Err(error),
        }
    }
}

impl ProfileOpening {
    /// The path to the node of the profile is being opened.
    pub open spec fn wf(self) -> bool {
        reached(self@.log, 3)
    }

    /// Path `id` came up, or failed to. Where it is the one to the node of the
    /// profile and came up, the client reports that it loads the vault.
    pub fn outbound_stream<Report: FnOnce(BootPhase)>(
        self,
        id: PathId,
        opened: bool,
        report: Report,
    ) -> (step: RouteStep)
        requires
            self.wf(),
            id == self@.path && opened ==> call_requires(report, (BootPhase::VaultLoad,)),
        ensures
            match step {
                RouteStep::Wait(same) => id != self@.path && same == self,
                RouteStep::Load(next) => {
                    &&& id == self@.path
                    &&& opened
                    &&& next.wf()
                    &&& next@ == (RouteModel {
                        log: self@.log.push(BootPhase::VaultLoad),
                        ..self@
                    })
                    &&& call_ensures(report, (BootPhase::VaultLoad,), ())
                },
                RouteStep::Fail(error) => {
                    &&& id == self@.path
                    &&& !opened
                    &&& error == BootError::ProfileRoute
                },
            },
    {
        if id != self.path {
            RouteStep::Wait(self)
        } else if opened {
            report(BootPhase::VaultLoad);
            proof {
                lemma_next_phase(self@.log, BootPhase::VaultLoad);
            }
            RouteStep::Load(
                VaultLoading {
                    profile: self.profile,
                    peer: self.peer,
                    path: self.path,
                    log: Ghost(self.log@.push(BootPhase::VaultLoad)),
                },
            )
        } else {
            RouteStep::Fail(BootError::ProfileRoute)
        }
    }
}

/// What a node is asked for to create a profile. The proof of ownership in it is
/// made for `context` under the number `nonce`.
#[derive(Clone, Copy, Debug)]
pub struct Creation {
    pub topic: Topic,
    pub nonce: Nonce,
    pub context: Digest,
}

impl VaultLoading {
    /// The vault is being loaded.
    pub open spec fn wf(self) -> bool {
        reached(self@.log, 4)
    }

    /// The topic under which the vault is asked for: the user's profile.
    pub fn topic(&self) -> (topic: Topic)
        ensures
            topic == Topic::Profile(self@.profile.sign),
    {
        Topic::Profile(self.profile.sign)
    }

    /// The node of the profile answered with the vault, or did not. Where there is
    /// no profile, the client reports that it creates one.
    pub fn fetched<Report: FnOnce(BootPhase)>(
        self,
        answer: Option<(Nonce, Nonce, Vec<(Digest, Vec<u8>)>)>,
        report: Report,
    ) -> (next: Planning)
        requires
            self.wf(),
            answer matches Some((last_vault, last_mail, _)) ==> last_vault < u64::MAX && last_mail
                < u64::MAX,
            answer is None ==> call_requires(report, (BootPhase::ProfileCreate,)),
        ensures
            next.wf(),
            next@.profile == self@.profile,
            next@.peer == self@.peer,
            next@.path == self@.path,
            is_fetched(answer, next@.vault),
            if next@.vault.is_missing() {
                &&& next@.log == self@.log.push(BootPhase::ProfileCreate)
                &&& call_ensures(report, (BootPhase::ProfileCreate,), ())
            } else {
                next@.log == self@.log
            },
    {
        let vault: FetchedVault = FetchedVault::new(answer);
        proof {
            lemma_profile_created_once(answer, vault);
            lemma_next_phase(self@.log, BootPhase::ProfileCreate);
        }
        let mut log: Ghost<Seq<BootPhase>> = self.log;
        if vault.needs_profile() {
            report(BootPhase::ProfileCreate);
            log = Ghost(self.log@.push(BootPhase::ProfileCreate));
        }
        Planning { profile: self.profile, peer: self.peer, path: self.path, vault, log }
    }
}

/// The nodes of some paths, with the chats asked of each.
pub open spec fn nodes_of(awaiting: Seq<(PathId, NodeId, Seq<ChatName>)>) -> Seq<
    (NodeId, Seq<ChatName>),
> {
    awaiting.map_values(|path: (PathId, NodeId, Seq<ChatName>)| (path.1, path.2))
}

/// The nodes that a client connects to for its chats, in order.
pub open spec fn planned_nodes(
    members: Seq<(ChatName, Vec<NodeId>)>,
    count: nat,
    profile_peer: NodeId,
) -> Seq<NodeId> {
    topology::cover(
        topology::by_size(topology::other_nodes(members, count, profile_peer)),
        Seq::empty(),
        members.len(),
    ).map_values(|part: (NodeId, Seq<ChatName>)| part.0)
}

/// Paths were opened to the planned nodes, once, and are awaited in that order.
pub open spec fn opened_to<Open: FnOnce(Vec<NodeId>) -> Vec<PathId>>(
    open_paths: Open,
    planned: Seq<NodeId>,
    awaiting: Seq<(PathId, NodeId, Seq<ChatName>)>,
) -> bool {
    exists|nodes: Vec<NodeId>, paths: Vec<PathId>| #[trigger]
        call_ensures(open_paths, (nodes,), paths) && nodes@ == planned && paths@
            == awaiting.map_values(|path: (PathId, NodeId, Seq<ChatName>)| path.0)
}

impl Planning {
    /// The vault is known. Where there is no profile, it is being created.
    pub open spec fn wf(self) -> bool {
        reached(
            self@.log,
            if self@.vault.is_missing() {
                5
            } else {
                4
            },
        )
    }

    /// The vault as it was fetched.
    pub fn vault(&self) -> (vault: &FetchedVault)
        ensures
            *vault == self@.vault,
    {
        &self.vault
    }

    /// The node of the profile.
    pub fn peer(&self) -> (peer: NodeId)
        ensures
            peer == self@.peer,
    {
        self.peer
    }

    /// The path to the node of the profile.
    pub fn path(&self) -> (path: PathId)
        ensures
            path == self@.path,
    {
        self.path
    }

    /// What to ask of the node of the profile where there is no profile yet: one
    /// is created, as the first action on the vault.
    pub fn creation(&self) -> (creation: Option<Creation>)
        ensures
            match creation {
                Some(creation) => {
                    &&& self@.vault.is_missing()
                    &&& creation.topic == Topic::Profile(self@.profile.sign)
                    &&& creation.nonce == self@.vault.vault_nonce
                    &&& creation.nonce == 0
                    &&& forall|i: int| 0 <= i < 32 ==> #[trigger] creation.context[i] == 0
                },
                None => !self@.vault.is_missing(),
            },
    {
        if self.vault.needs_profile() {
            Some(
                Creation {
                    topic: Topic::Profile(self.profile.sign),
                    nonce: self.vault.vault_nonce,
                    context: [0; 32],
                },
            )
        } else {
            None
        }
    }

    /// The chats of the vault are known, with the nodes closest to each. The
    /// client reports that it searches for them, and opens one path to every node
    /// that it needs.
    pub fn search<C, Report: FnOnce(BootPhase), Open: FnOnce(Vec<NodeId>) -> Vec<PathId>>(
        self,
        members: &Vec<(ChatName, Vec<NodeId>)>,
        count: usize,
        report: Report,
        open_paths: Open,
    ) -> (search: ChatSearch<C>)
        requires
            self.wf(),
            topology::names(members@).no_duplicates(),
            forall|k: int|
                0 <= k < members@.len() ==> #[trigger] topology::has_other_member(
                    members@,
                    count as nat,
                    k,
                    self@.peer,
                ),
            call_requires(report, (BootPhase::ChatSearch,)),
            forall|nodes: Vec<NodeId>|
                nodes@ == planned_nodes(members@, count as nat, self@.peer) ==> #[trigger]
                call_requires(open_paths, (nodes,)),
            forall|nodes: Vec<NodeId>, paths: Vec<PathId>| #[trigger]
                call_ensures(open_paths, (nodes,), paths) ==> paths@.len() == nodes@.len(),
        ensures
            search.wf(),
            search@.subs == seq![
                SubscriptionModel::<C> {
                    id: self@.path,
                    peer_id: self@.peer,
                    topics: seq![Topic::Profile(self@.profile.sign)] + topology::riding_along(
                        topology::candidates_of(members@, count as nat),
                        self@.peer,
                    ),
                    channels: Map::empty(),
                },
            ],
            nodes_of(search@.awaiting) == topology::cover(
                topology::by_size(topology::other_nodes(members@, count as nat, self@.peer)),
                Seq::empty(),
                members@.len(),
            ),
            opened_to(
                open_paths,
                planned_nodes(members@, count as nat, self@.peer),
                search@.awaiting,
            ),
            search@.log == self@.log.push(BootPhase::ChatSearch),
            call_ensures(report, (BootPhase::ChatSearch,), ()),
    {
        report(BootPhase::ChatSearch);
        proof {
            assert(self@.log.last().number() == 4 ==> self@.log.last() is VaultLoad);
            lemma_next_phase(self@.log, BootPhase::ChatSearch);
        }
        assert(self@.peer == self.peer);
        let (riding, plan) = topology::connections(members, count, self.peer);
        let ghost planned = plan@;
        let ghost cover = topology::model(planned);
        let mut nodes: Vec<NodeId> = Vec::new();
        let mut i: usize = 0;
        while i < plan.len()
            invariant
                i <= plan.len(),
                plan@ == planned,
                nodes@.len() == i,
                forall|k: int| 0 <= k < i ==> (#[trigger] nodes@[k]) == planned[k].0,
            decreases plan.len() - i,
        {
            nodes.push(plan[i].0);
            i = i + 1;
        }
        assert(nodes@ =~= planned_nodes(members@, count as nat, self@.peer)) by {
            assert forall|k: int| 0 <= k < planned.len() implies nodes@[k] == (
            #[trigger] cover[k]).0 by {}
        }
        let ghost asked = nodes;
        let paths: Vec<PathId> = open_paths(nodes);
        assert(call_ensures(open_paths, (asked,), paths));
        let mut awaiting: Vec<Awaited> = Vec::new();
        for part in it: plan
            invariant
                it.seq() == planned,
                paths@.len() == planned.len(),
                awaiting@.len() == it.index(),
                forall|i: int|
                    0 <= i < awaiting@.len() ==> {
                        &&& (#[trigger] awaiting@[i]).0 == paths@[i]
                        &&& awaiting@[i].1 == planned[i].0
                        &&& awaiting@[i].2 == planned[i].1
                    },
        {
            let (peer, chats) = part;
            let path: PathId = paths[awaiting.len()];
            awaiting.push((path, peer, chats));
        }
        let profile: Subscription<C> = profile_subscription(
            self.path,
            self.peer,
            self.profile.sign,
            &riding,
        );
        let ghost first = profile@;
        let mut subscriptions: Vec<Subscription<C>> = Vec::new();
        subscriptions.push(profile);
        let search = ChatSearch {
            awaiting,
            subscriptions,
            log: Ghost(self.log@.push(BootPhase::ChatSearch)),
        };
        proof {
            assert(search@.subs =~= seq![first]);
            assert forall|i: int| 0 <= i < search@.awaiting.len() implies #[trigger]
                search@.awaiting[i] == (awaiting@[i].0, awaiting@[i].1, awaiting@[i].2@) by {}
            assert(nodes_of(search@.awaiting) =~= topology::model(planned));
            assert(paths@ =~= search@.awaiting.map_values(
                |path: (PathId, NodeId, Seq<ChatName>)| path.0,
            ));
        }
        search
    }
}

/// The phases are numbered from zero on, in the order in which they follow each other,
/// and whoever waits for keys reads how many are missing.
pub proof fn lemma_phases_numbered_in_turn(left: usize)
    ensures
        forall|number: u8| #[trigger]
            call_ensures(BootPhase::discriminant, (&BootPhase::FetchNodesAndProfile,), number)
                ==> number == 0,
        forall|number: u8| #[trigger]
            call_ensures(BootPhase::discriminant, (&BootPhase::InitiateConnection,), number)
                ==> number == 1,
        forall|number: u8| #[trigger]
            call_ensures(BootPhase::discriminant, (&BootPhase::CollecringKeys(left),), number)
                ==> number == 2,
        forall|number: u8| #[trigger]
            call_ensures(BootPhase::discriminant, (&BootPhase::ProfileOpen,), number) ==> number
                == 3,
        forall|number: u8| #[trigger]
            call_ensures(BootPhase::discriminant, (&BootPhase::VaultLoad,), number) ==> number == 4,
        forall|number: u8| #[trigger]
            call_ensures(BootPhase::discriminant, (&BootPhase::ProfileCreate,), number) ==> number
                == 5,
        forall|number: u8| #[trigger]
            call_ensures(BootPhase::discriminant, (&BootPhase::ChatSearch,), number) ==> number
                == 6,
        forall|number: u8| #[trigger]
            call_ensures(BootPhase::discriminant, (&BootPhase::ChatRun,), number) ==> number == 7,
        forall|message: String| #[trigger]
            call_ensures(BootPhase::message, (&BootPhase::CollecringKeys(left),), message)
                ==> exists|digits: Seq<char>| #[trigger]
                text::reads_as(digits, left as int) && message@ == "collecting server keys... ("@
                    + digits + " left)"@,
{
    text::lemma_decimal_reads_as(left as nat);
    assert(text::reads_as(text::decimal(left as nat), left as int));
}

/// Whoever cannot start for want of nodes reads how many are needed and how many there
/// are.
pub proof fn lemma_missing_nodes_are_told(needed: usize, got: usize)
    ensures
        forall|message: String| #[trigger]
            call_ensures(
                BootError::message,
                (&BootError::NotEnoughNodes { needed, got },),
                message,
            ) ==> exists|a: Seq<char>, b: Seq<char>| #[trigger]
                text::reads_as(a, needed as int) && #[trigger] text::reads_as(b, got as int)
                    && message@ == "not enough nodes in network, needed "@ + a + ", got "@ + b,
{
    text::lemma_decimal_reads_as(needed as nat);
    text::lemma_decimal_reads_as(got as nat);
    assert(text::reads_as(text::decimal(needed as nat), needed as int));
    assert(text::reads_as(text::decimal(got as nat), got as int));
}

/// The numbers of the next actions follow those of the last, and start at zero where
/// nothing was answered, but for the mail box, where the first is never zero. A
/// profile is created where nothing is stored and the vault was never touched.
pub proof fn lemma_vault_counts_on(
    last_vault: Nonce,
    last_mail: Nonce,
    entries: Vec<(Digest, Vec<u8>)>,
)
    ensures
        forall|vault: FetchedVault| #[trigger]
            call_ensures(FetchedVault::new, (Some((last_vault, last_mail, entries)),), vault) ==> {
                &&& vault.vault_nonce == last_vault + 1
                &&& vault.mail_action == last_mail + 1
                &&& vault.entries == entries
            },
        forall|vault: FetchedVault| #[trigger]
            call_ensures(FetchedVault::new, (None,), vault) ==> {
                &&& vault.vault_nonce == 0
                &&& vault.mail_action == 0
                &&& vault.entries@.len() == 0
            },
        forall|vault: FetchedVault, create: bool| #[trigger]
            call_ensures(FetchedVault::needs_profile, (&vault,), create) ==> (create
                <==> vault.entries@.len() == 0 && vault.vault_nonce == 0),
        forall|vault: FetchedVault, action: Nonce| #[trigger]
            call_ensures(FetchedVault::first_mail_action, (&vault,), action) ==> action > 0 && (
            vault.mail_action > 0 ==> action == vault.mail_action) && (vault.mail_action == 0
                ==> action == 1),
{
}

/// Whether a client that is busy with `before` may be busy with `after` next.
pub open spec fn may_follow(before: BootPhase, after: BootPhase) -> bool {
    match before {
        BootPhase::FetchNodesAndProfile => after is InitiateConnection,
        BootPhase::InitiateConnection => after is CollecringKeys,
        BootPhase::CollecringKeys(_) => after is CollecringKeys || after is ProfileOpen,
        BootPhase::ProfileOpen => after is VaultLoad,
        BootPhase::VaultLoad => after is ProfileCreate || after is ChatSearch,
        BootPhase::ProfileCreate => after is ChatSearch,
        BootPhase::ChatSearch => after is ChatRun,
        BootPhase::ChatRun => false,
    }
}

/// A client goes from each phase to one that may follow it, from the first on.
pub proof fn lemma_phases_follow(log: Seq<BootPhase>, number: int, i: int)
    requires
        0 <= number < 8,
        reached(log, number),
        0 <= i < log.len() - 1,
    ensures
        log[0] is FetchNodesAndProfile,
        may_follow(log[i], log[i + 1]),
{
    lemma_phases_in_order(log, number);
    let (a, b) = (log[i].number(), log[i + 1].number());
    assert(log[i + 1].number() <= log[log.len() - 1].number());
    let n = if a == 4 {
        6int
    } else {
        a + 1
    };
    if b > n {
        assert(went_through(log, n));
        let k = choose|k: int| 0 <= k < log.len() && (#[trigger] log[k]).number() == n;
        if k <= i {
            assert(log[k].number() <= log[i].number());
        } else {
            assert(log[i + 1].number() <= log[k].number());
        }
    }
}

/// A start begins with the user's own profile, and goes on where the chain has just
/// that under the user's name. It then waits for the keys of as many servers as there
/// are, and reports how many are missing each time.
pub proof fn lemma_start_checks_the_profile<Report: FnOnce(BootPhase)>(
    own: Profile,
    found: Profile,
    node_count: usize,
    keys: usize,
    report: Report,
)
    ensures
        forall|stage: Fetching| #[trigger]
            call_ensures(Fetching::start::<Report>, (own, report), stage) ==> {
                &&& stage@.own == own
                &&& stage@.log.len() == 1
                &&& stage@.log[0] is FetchNodesAndProfile
                &&& call_ensures(report, (BootPhase::FetchNodesAndProfile,), ())
            },
        forall|stage: Fetching, next: Result<Connecting, BootError>| #[trigger]
            call_ensures(Fetching::fetched::<Report>, (stage, None, node_count, report), next) ==> (
            next matches Err(error) && error is ProfileNotFound),
        forall|stage: Fetching, next: Result<Connecting, BootError>| #[trigger]
            call_ensures(
                Fetching::fetched::<Report>,
                (stage, Some(found), node_count, report),
                next,
            ) ==> match next {
                Ok(next) => {
                    &&& found == stage@.own
                    &&& next@.profile == found
                    &&& next@.node_count == node_count
                    &&& next@.log == stage@.log.push(BootPhase::InitiateConnection)
                    &&& call_ensures(report, (BootPhase::InitiateConnection,), ())
                },
                Err(error) => error is ProfileMismatch && found != stage@.own,
            },
        forall|stage: Connecting, next: Collecting| #[trigger]
            call_ensures(Connecting::connected::<Report>, (stage, keys, report), next) && keys
                <= stage@.node_count ==> {
                &&& next@.profile == stage@.profile
                &&& next@.node_count == stage@.node_count
                &&& exists|left: usize|
                    {
                        &&& left + keys == stage@.node_count
                        &&& next@.log == stage@.log.push(BootPhase::CollecringKeys(left))
                        &&& #[trigger] call_ensures(
                            report,
                            (BootPhase::CollecringKeys(left),),
                            (),
                        )
                    }
            },
        forall|stage: &mut Collecting, done: bool| #[trigger]
            call_ensures(Collecting::progress::<Report>, (stage, keys, report), done) && keys
                <= stage@.node_count ==> {
                &&& final(stage)@.profile == stage@.profile
                &&& final(stage)@.node_count == stage@.node_count
                &&& exists|left: usize|
                    {
                        &&& left + keys == stage@.node_count
                        &&& done <==> left == 0
                        &&& final(stage)@.log == stage@.log.push(BootPhase::CollecringKeys(left))
                        &&& #[trigger] call_ensures(
                            report,
                            (BootPhase::CollecringKeys(left),),
                            (),
                        )
                    }
            },
{
}

/// With enough keys a path is opened to one of the nodes closest to the profile, which
/// stands at one of the first `count` places. With too few the start fails.
pub proof fn lemma_profile_opened_at_a_member<
    Report: FnOnce(BootPhase),
    Open: FnOnce(NodeId) -> PathId,
>(
    keys: usize,
    needed: usize,
    closest: Vec<NodeId>,
    count: usize,
    report: Report,
    open_path: Open,
)
    ensures
        forall|stage: Collecting, next: Result<ProfileOpening, BootError>| #[trigger]
            call_ensures(
                Collecting::collected::<Report, Open>,
                (stage, keys, needed, &closest, count, report, open_path),
                next,
            ) ==> match next {
                Ok(next) => {
                    &&& keys >= needed
                    &&& next@.profile == stage@.profile
                    &&& next@.log == stage@.log.push(BootPhase::ProfileOpen)
                    &&& call_ensures(report, (BootPhase::ProfileOpen,), ())
                    &&& call_ensures(open_path, (next@.peer,), next@.path)
                    &&& exists|i: int|
                        {
                            &&& 0 <= i < closest@.len()
                            &&& i < count
                            &&& #[trigger] closest@[i] == next@.peer
                        }
                },
                Err(BootError::NotEnoughNodes { needed: wanted, got }) => {
                    &&& keys < needed
                    &&& wanted == needed
                    &&& got == keys
                },
                Err(_) => false,
            },
{
    assert forall|stage: Collecting, next: Result<ProfileOpening, BootError>| #[trigger]
        call_ensures(
            Collecting::collected::<Report, Open>,
            (stage, keys, needed, &closest, count, report, open_path),
            next,
        ) && next is Ok implies exists|i: int|
        {
            &&& 0 <= i < closest@.len()
            &&& i < count
            &&& #[trigger] closest@[i] == next->Ok_0@.peer
        } by {
        let peer = next->Ok_0@.peer;
        let first = topology::first_of(closest@, count as nat);
        let i = choose|i: int| 0 <= i < first.len() && first[i] == peer;
        topology::lemma_members_are_the_closest(closest, count);
        assert(first[i] == closest@[i]);
        assert(closest@[i] == peer);
    }
}

/// The client waits for the path to the node of the profile and for no other. It loads
/// the vault of the profile over it, and creates the profile where there is none, as
/// the first action.
pub proof fn lemma_vault_is_loaded<Report: FnOnce(BootPhase)>(
    id: PathId,
    opened: bool,
    answer: Option<(Nonce, Nonce, Vec<(Digest, Vec<u8>)>)>,
    report: Report,
)
    ensures
        forall|stage: ProfileOpening, step: RouteStep| #[trigger]
            call_ensures(
                ProfileOpening::outbound_stream::<Report>,
                (stage, id, opened, report),
                step,
            ) ==> match step {
                RouteStep::Wait(same) => id != stage@.path && same == stage,
                RouteStep::Load(next) => {
                    &&& id == stage@.path
                    &&& opened
                    &&& next@.profile == stage@.profile
                    &&& next@.peer == stage@.peer
                    &&& next@.path == stage@.path
                    &&& next@.log == stage@.log.push(BootPhase::VaultLoad)
                    &&& call_ensures(report, (BootPhase::VaultLoad,), ())
                },
                RouteStep::Fail(error) => id == stage@.path && !opened && error is ProfileRoute,
            },
        forall|stage: VaultLoading, topic: Topic| #[trigger]
            call_ensures(VaultLoading::topic, (&stage,), topic) ==> topic == Topic::Profile(
                stage@.profile.sign,
            ),
        forall|stage: VaultLoading, next: Planning| #[trigger]
            call_ensures(VaultLoading::fetched::<Report>, (stage, answer, report), next) ==> {
                &&& next@.profile == stage@.profile
                &&& next@.peer == stage@.peer
                &&& next@.path == stage@.path
                &&& match answer {
                    None => {
                        &&& next@.vault.vault_nonce == 0
                        &&& next@.vault.mail_action == 0
                        &&& next@.vault.entries@.len() == 0
                        &&& next@.log == stage@.log.push(BootPhase::ProfileCreate)
                        &&& call_ensures(report, (BootPhase::ProfileCreate,), ())
                    },
                    Some((last_vault, last_mail, entries)) => {
                        &&& next@.vault.vault_nonce == last_vault + 1
                        &&& next@.vault.mail_action == last_mail + 1
                        &&& next@.vault.entries == entries
                        &&& next@.log == stage@.log
                    },
                }
            },
        forall|stage: Planning, creation: Option<Creation>| #[trigger]
            call_ensures(Planning::creation, (&stage,), creation) ==> match creation {
                Some(creation) => {
                    &&& stage@.vault.entries@.len() == 0
                    &&& stage@.vault.vault_nonce == 0
                    &&& creation.topic == Topic::Profile(stage@.profile.sign)
                    &&& creation.nonce == 0
                    &&& forall|i: int| 0 <= i < 32 ==> #[trigger] creation.context@[i] == 0
                },
                None => stage@.vault.entries@.len() > 0 || stage@.vault.vault_nonce > 0,
            },
{
}

/// A path is there for a topic with reason exactly where the topic is a chat and the
/// path ends at a node that is close to it.
pub proof fn lemma_rightly_served(
    members: Seq<(ChatName, Vec<NodeId>)>,
    count: nat,
    peer: NodeId,
    topic: Topic,
)
    ensures
        rightly_served(members, count, peer, topic) <==> (topic matches Topic::Chat(chat)
            && topology::close_to(members, count as int, peer, chat)),
{
    if rightly_served(members, count, peer, topic) {
        let k = choose|k: int| #[trigger]
            topology::is_member(members, count, k, peer) && topic == Topic::Chat(members[k].0);
        topology::lemma_is_member(members, count, k, peer);
        let i = choose|i: int|
            0 <= i < members[k].1@.len() && i < count && #[trigger] members[k].1@[i] == peer;
        assert(members[k].1@[i] == peer);
    }
    if topic matches Topic::Chat(chat) && topology::close_to(members, count as int, peer, chat) {
        let chat = topic->Chat_0;
        let (k, i) = choose|k: int, i: int|
            {
                &&& 0 <= k < members.len()
                &&& members[k].0 == chat
                &&& 0 <= i < members[k].1@.len()
                &&& i < count
                &&& #[trigger] members[k].1@[i] == peer
            };
        topology::lemma_is_member(members, count, k, peer);
        assert(topology::is_member(members, count, k, peer));
    }
}

/// Paths are awaited for the chats: each chat is on exactly one of them, which ends at
/// a node close to the chat, and none is for anything else or ends at the node of the
/// profile. They are those that were opened to just these nodes, in this order.
pub open spec fn rightly_awaited<Open: FnOnce(Vec<NodeId>) -> Vec<PathId>>(
    members: Seq<(ChatName, Vec<NodeId>)>,
    count: int,
    profile_peer: NodeId,
    open_paths: Open,
    awaiting: Seq<(PathId, NodeId, Seq<ChatName>)>,
) -> bool {
    &&& exists|nodes: Vec<NodeId>, paths: Vec<PathId>| #[trigger]
        call_ensures(open_paths, (nodes,), paths) && {
            &&& nodes@.len() == awaiting.len()
            &&& paths@.len() == awaiting.len()
            &&& forall|i: int|
                0 <= i < awaiting.len() ==> (#[trigger] awaiting[i]).0 == paths@[i]
                    && awaiting[i].1 == nodes@[i]
        }
    &&& forall|i: int|
        0 <= i < awaiting.len() ==> (#[trigger] awaiting[i]).1 != profile_peer
            && awaiting[i].2.len() > 0 && awaiting[i].2.no_duplicates()
    &&& forall|i: int, chat: ChatName|
        0 <= i < awaiting.len() && #[trigger] awaiting[i].2.contains(chat) ==> topology::close_to(
            members,
            count,
            awaiting[i].1,
            chat,
        )
    &&& forall|i: int, j: int, chat: ChatName|
        0 <= i < awaiting.len() && 0 <= j < awaiting.len() && #[trigger] awaiting[i].2.contains(
            chat,
        ) && #[trigger] awaiting[j].2.contains(chat) ==> i == j
    &&& forall|k: int|
        0 <= k < members.len() ==> exists|i: int|
            0 <= i < awaiting.len() && (#[trigger] awaiting[i]).2.contains(
                (#[trigger] members[k]).0,
            )
}

/// The path of the profile is open: it serves the profile, and behind that the chats
/// that the node of the profile is close to, in order, and nothing else.
pub open spec fn rightly_open<C>(
    members: Seq<(ChatName, Vec<NodeId>)>,
    count: int,
    route: PlanningModel,
    sub: SubscriptionModel<C>,
) -> bool {
    &&& sub.id == route.path
    &&& sub.peer_id == route.peer
    &&& sub.channels == Map::<node::RequestId, C>::empty()
    &&& sub.topics.len() > 0
    &&& sub.topics[0] == Topic::Profile(route.profile.sign)
    &&& sub.topics.skip(1) == topology::candidates_of(members, count as nat).filter(
        |pair: (NodeId, ChatName)| pair.0 == route.peer,
    ).map_values(|pair: (NodeId, ChatName)| Topic::Chat(pair.1))
    &&& forall|chat: ChatName| #[trigger]
        sub.topics.contains(Topic::Chat(chat)) <==> topology::close_to(
            members,
            count,
            route.peer,
            chat,
        )
}

/// A client that searches for its chats opens paths to nodes close to them, once for
/// each chat, beside the one to the node of its profile.
pub proof fn lemma_search_opens_paths<
    C,
    Report: FnOnce(BootPhase),
    Open: FnOnce(Vec<NodeId>) -> Vec<PathId>,
>(
    stage: Planning,
    members: Vec<(ChatName, Vec<NodeId>)>,
    count: usize,
    report: Report,
    open_paths: Open,
)
    requires
        topology::names(members@).no_duplicates(),
        forall|k: int|
            0 <= k < members@.len() ==> #[trigger] topology::has_other_member(
                members@,
                count as nat,
                k,
                stage@.peer,
            ),
    ensures
        forall|search: ChatSearch<C>| #[trigger]
            call_ensures(
                Planning::search::<C, Report, Open>,
                (stage, &members, count, report, open_paths),
                search,
            ) ==> {
                &&& search@.subs.len() == 1
                &&& rightly_open(members@, count as int, stage@, search@.subs[0])
                &&& rightly_awaited(
                    members@,
                    count as int,
                    stage@.peer,
                    open_paths,
                    search@.awaiting,
                )
                &&& search@.log == stage@.log.push(BootPhase::ChatSearch)
                &&& call_ensures(report, (BootPhase::ChatSearch,), ())
            },
{
    let n = count as nat;
    let peer = stage@.peer;
    let nodes = topology::other_nodes(members@, n, peer);
    let pairs = topology::candidates_of(members@, n);
    let chats = topology::names(members@);
    let plan = topology::cover(topology::by_size(nodes), Seq::empty(), members@.len());
    topology::lemma_other_nodes_serve_the_chats(members@, n, peer);
    topology::lemma_plan_serves_every_chat(nodes, chats);
    assert forall|search: ChatSearch<C>| #[trigger]
        call_ensures(
            Planning::search::<C, Report, Open>,
            (stage, &members, count, report, open_paths),
            search,
        ) implies {
        &&& search@.subs.len() == 1
        &&& rightly_open(members@, count as int, stage@, search@.subs[0])
        &&& rightly_awaited(members@, count as int, stage@.peer, open_paths, search@.awaiting)
    } by {
        lemma_path_of_the_profile(members@, n, stage@, search@.subs[0]);
        let awaiting = search@.awaiting;
        assert forall|i: int| 0 <= i < awaiting.len() implies plan[i] == (
            (#[trigger] awaiting[i]).1,
            awaiting[i].2,
        ) by {
            assert(nodes_of(awaiting)[i] == plan[i]);
        }
        assert(plan.len() == awaiting.len());
        let (asked, paths) = choose|asked: Vec<NodeId>, paths: Vec<PathId>| #[trigger]
            call_ensures(open_paths, (asked,), paths) && asked@ == planned_nodes(members@, n, peer)
                && paths@ == awaiting.map_values(
                |path: (PathId, NodeId, Seq<ChatName>)| path.0,
            );
        assert(call_ensures(open_paths, (asked,), paths));
        assert forall|i: int, chat: ChatName|
            0 <= i < awaiting.len() && #[trigger] awaiting[i].2.contains(chat) implies awaiting[i].1
            != peer && topology::close_to(members@, count as int, awaiting[i].1, chat) by {
            assert(topology::takes_part(plan[i], nodes));
            let j = choose|j: int|
                {
                    &&& 0 <= j < nodes.len()
                    &&& (#[trigger] nodes[j]).0 == plan[i].0
                    &&& forall|chat: ChatName| #[trigger]
                        plan[i].1.contains(chat) ==> nodes[j].1.contains(chat)
                };
            assert(topology::lists(nodes, plan[i].0, chat));
            topology::lemma_split_is_faithful(pairs, peer, plan[i].0, chat);
            topology::lemma_close_to(members@, n, plan[i].0, chat);
        }
        assert forall|i: int| 0 <= i < awaiting.len() implies (#[trigger] awaiting[i]).1 != peer
            && awaiting[i].2.len() > 0 && awaiting[i].2.no_duplicates() by {
            assert(plan[i].1.len() > 0 && plan[i].1.no_duplicates());
            assert(awaiting[i].2.contains(awaiting[i].2[0]));
        }
        assert forall|i: int, j: int, chat: ChatName|
            0 <= i < awaiting.len() && 0 <= j < awaiting.len() && #[trigger] awaiting[i].2.contains(
                chat,
            ) && #[trigger] awaiting[j].2.contains(chat) implies i == j by {
            if i < j {
                assert(topology::disjoint_chats(plan[i].1, plan[j].1));
            }
            if j < i {
                assert(topology::disjoint_chats(plan[j].1, plan[i].1));
            }
        }
        assert forall|k: int| 0 <= k < members@.len() implies exists|i: int|
            0 <= i < awaiting.len() && (#[trigger] awaiting[i]).2.contains(
                (#[trigger] members@[k]).0,
            ) by {
            let chat = members@[k].0;
            assert(chats[k] == chat);
            assert(topology::planned(plan, chat));
            let i = choose|i: int| 0 <= i < plan.len() && (#[trigger] plan[i]).1.contains(chat);
            assert(awaiting[i].2.contains(chat));
        }
    }
}

proof fn lemma_path_of_the_profile<C>(
    members: Seq<(ChatName, Vec<NodeId>)>,
    count: nat,
    route: PlanningModel,
    sub: SubscriptionModel<C>,
)
    requires
        sub == (SubscriptionModel::<C> {
            id: route.path,
            peer_id: route.peer,
            topics: seq![Topic::Profile(route.profile.sign)] + topology::riding_along(
                topology::candidates_of(members, count),
                route.peer,
            ),
            channels: Map::empty(),
        }),
    ensures
        rightly_open(members, count as int, route, sub),
{
    let pairs = topology::candidates_of(members, count);
    let riding = topology::riding_along(pairs, route.peer);
    let topics = sub.topics;
    topology::lemma_riding_along(pairs, route.peer);
    assert(topics.skip(1) =~= riding);
    assert forall|chat: ChatName| #[trigger] topics.contains(Topic::Chat(chat))
        <==> topology::close_to(members, count as int, route.peer, chat) by {
        topology::lemma_split_is_faithful(pairs, route.peer, route.peer, chat);
        topology::lemma_close_to(members, count, route.peer, chat);
        if topics.contains(Topic::Chat(chat)) {
            let i = choose|i: int| 0 <= i < topics.len() && topics[i] == Topic::Chat(chat);
            assert(riding[i - 1] == Topic::Chat(chat));
        }
        if riding.contains(Topic::Chat(chat)) {
            let i = choose|i: int| 0 <= i < riding.len() && riding[i] == Topic::Chat(chat);
            assert(topics[i + 1] == Topic::Chat(chat));
        }
    }
}

/// A path that is awaited and comes up is awaited no more, and serves just the chats
/// it was planned for, in front of the others. One that fails ends the start, and one
/// that nobody awaits changes nothing.
pub open spec fn rightly_advanced<C>(
    before: ChatSearchModel<C>,
    id: PathId,
    opened: bool,
    after: ChatSearchModel<C>,
    expected: bool,
) -> bool {
    if expected {
        &&& opened
        &&& after.log == before.log
        &&& exists|at: int|
            {
                &&& 0 <= at < before.awaiting.len()
                &&& (#[trigger] before.awaiting[at]).0 == id
                &&& forall|k: int| 0 <= k < at ==> (#[trigger] before.awaiting[k]).0 != id
                &&& after.awaiting == before.awaiting.take(at) + before.awaiting.skip(at + 1)
                &&& after.subs.len() == before.subs.len() + 1
                &&& after.subs[0].id == id
                &&& after.subs[0].peer_id == before.awaiting[at].1
                &&& after.subs[0].channels == Map::<node::RequestId, C>::empty()
                &&& after.subs[0].topics.len() == before.awaiting[at].2.len()
                &&& forall|k: int|
                    0 <= k < before.awaiting[at].2.len() ==> #[trigger] after.subs[0].topics[k]
                        == Topic::Chat(before.awaiting[at].2[k])
                &&& forall|k: int|
                    0 <= k < before.subs.len() ==> after.subs[k + 1] == #[trigger] before.subs[k]
            }
    } else {
        &&& after == before
        &&& forall|k: int|
            0 <= k < before.awaiting.len() ==> (#[trigger] before.awaiting[k]).0 != id
    }
}

proof fn lemma_first_awaited(
    awaiting: Seq<(PathId, NodeId, Seq<ChatName>)>,
    id: PathId,
    from: int,
)
    requires
        0 <= from,
    ensures
        match awaited_at(awaiting, id, from) {
            Some(at) => {
                &&& from <= at < awaiting.len()
                &&& awaiting[at].0 == id
                &&& forall|k: int| from <= k < at ==> (#[trigger] awaiting[k]).0 != id
            },
            None => forall|k: int| from <= k < awaiting.len() ==> (#[trigger] awaiting[k]).0 != id,
        },
    decreases awaiting.len() - from,
{
    if from < awaiting.len() && awaiting[from].0 != id {
        lemma_first_awaited(awaiting, id, from + 1);
    }
}

/// Paths come up as they should, the search is done when none is awaited, and the
/// client that then runs has exactly the paths that opened, in the same order, and
/// nothing else yet.
pub proof fn lemma_paths_come_up<R, C, S, Report: FnOnce(BootPhase)>(
    id: PathId,
    opened: bool,
    report: Report,
)
    ensures
        forall|search: ChatSearch<C>, outcome: Result<(ChatSearch<C>, bool), BootError>| #[trigger]
            call_ensures(ChatSearch::<C>::outbound_stream, (search, id, opened), outcome)
                ==> match outcome {
                Ok((next, expected)) => rightly_advanced(search@, id, opened, next@, expected),
                Err(error) => {
                    &&& error is ChatRoute
                    &&& !opened
                    &&& exists|at: int|
                        0 <= at < search@.awaiting.len() && (#[trigger] search@.awaiting[at]).0
                            == id
                },
            },
        forall|search: ChatSearch<C>, done: bool| #[trigger]
            call_ensures(ChatSearch::<C>::is_done, (&search,), done) ==> (done
                <==> search@.awaiting.len() == 0),
        forall|search: ChatSearch<C>, node: Node<R, C, S>| #[trigger]
            call_ensures(ChatSearch::<C>::into_node::<R, S, Report>, (search, report), node) ==> {
                &&& node@.subs == search@.subs
                &&& node@.requests == Map::<node::RequestId, R>::empty()
                &&& node@.searches == Map::<PathId, Seq<node::RequestInit<R, C>>>::empty()
                &&& node@.streams.len() == 0
                &&& call_ensures(report, (BootPhase::ChatRun,), ())
            },
{
    assert forall|search: ChatSearch<C>, outcome: Result<(ChatSearch<C>, bool), BootError>|
        #[trigger] call_ensures(
            ChatSearch::<C>::outbound_stream,
            (search, id, opened),
            outcome,
        ) implies match outcome {
        Ok((next, expected)) => rightly_advanced(search@, id, opened, next@, expected),
        Err(error) => {
            &&& error is ChatRoute
            &&& !opened
            &&& exists|at: int|
                0 <= at < search@.awaiting.len() && (#[trigger] search@.awaiting[at]).0 == id
        },
    } by {
        let before = search@;
        lemma_first_awaited(before.awaiting, id, 0);
        if let Some(at) = awaited_at(before.awaiting, id, 0) {
            assert(before.awaiting[at].0 == id);
            if let Ok((next, _)) = outcome {
                let after = next@;
                assert(after.awaiting =~= before.awaiting.take(at) + before.awaiting.skip(at + 1));
                assert forall|k: int| 0 <= k < before.subs.len() implies after.subs[k + 1]
                    == #[trigger] before.subs[k] by {}
            }
        }
    }
}

/// What is told of a stage is what it holds.
pub proof fn lemma_stages_tell_what_they_hold<C>(
    search: ChatSearch<C>,
    keys: Collecting,
    plan: Planning,
)
    ensures
        forall|awaiting: &Vec<Awaited>| #[trigger]
            call_ensures(ChatSearch::<C>::awaiting, (&search,), awaiting) ==> {
                &&& awaiting@.len() == search@.awaiting.len()
                &&& forall|i: int|
                    0 <= i < awaiting@.len() ==> search@.awaiting[i] == (
                        (#[trigger] awaiting@[i]).0,
                        awaiting@[i].1,
                        awaiting@[i].2@,
                    )
            },
        forall|paths: &Vec<Subscription<C>>| #[trigger]
            call_ensures(ChatSearch::<C>::paths, (&search,), paths) ==> {
                &&& paths@.len() == search@.subs.len()
                &&& forall|i: int|
                    0 <= i < paths@.len() ==> search@.subs[i] == (#[trigger] paths@[i])@
            },
        forall|profile: &Profile| #[trigger]
            call_ensures(Collecting::profile, (&keys,), profile) ==> *profile == keys@.profile,
        forall|count: usize| #[trigger]
            call_ensures(Collecting::node_count, (&keys,), count) ==> count == keys@.node_count,
        forall|vault: &FetchedVault| #[trigger]
            call_ensures(Planning::vault, (&plan,), vault) ==> *vault == plan@.vault,
        forall|peer: NodeId| #[trigger]
            call_ensures(Planning::peer, (&plan,), peer) ==> peer == plan@.peer,
        forall|path: PathId| #[trigger]
            call_ensures(Planning::path, (&plan,), path) ==> path == plan@.path,
{
    assert forall|awaiting: &Vec<Awaited>| #[trigger]
        call_ensures(ChatSearch::<C>::awaiting, (&search,), awaiting) implies awaiting@.len()
        == search@.awaiting.len() && forall|i: int|
        0 <= i < awaiting@.len() ==> search@.awaiting[i] == (
            (#[trigger] awaiting@[i]).0,
            awaiting@[i].1,
            awaiting@[i].2@,
        ) by {
        assert(awaiting@.map_values(|path: Awaited| (path.0, path.1, path.2@)).len()
            == awaiting@.len());
    }
    assert forall|paths: &Vec<Subscription<C>>| #[trigger]
        call_ensures(ChatSearch::<C>::paths, (&search,), paths) implies paths@.len()
        == search@.subs.len() && forall|i: int|
        0 <= i < paths@.len() ==> search@.subs[i] == (#[trigger] paths@[i])@ by {
        assert(paths@.map_values(|sub: Subscription<C>| sub@).len() == paths@.len());
    }
}

} // verus!
