//! Which nodes a starting client connects to, so that every chat of its user
//! is served with few paths.
//!
//! The members of every chat are grouped by node. Chats of the node that serves
//! the user's profile ride along on that path. Of the other nodes, those with
//! the most chats come first, and each takes on the chats that none before it
//! has.

use crate::ids::{same_id, ChatName, NodeId, Topic};
use vstd::prelude::*;

verus! {

/// A node and the chats it serves.
pub type Served = (NodeId, Vec<ChatName>);

/// Nodes and the chats they serve, as mathematical sequences.
pub open spec fn model(nodes: Seq<Served>) -> Seq<(NodeId, Seq<ChatName>)> {
    nodes.map_values(|node: Served| (node.0, node.1@))
}

/// The first `count` members of every chat, each with the chat, in order.
pub open spec fn candidates_of(members: Seq<(ChatName, Vec<NodeId>)>, count: nat) -> Seq<
    (NodeId, ChatName),
>
    decreases members.len(),
{
    if members.len() == 0 {
        Seq::empty()
    } else {
        let (chat, peers) = members.last();
        candidates_of(members.drop_last(), count) + first_of(peers@, count).map_values(
            |peer: NodeId| (peer, chat),
        )
    }
}

/// At most the first `count` of `peers`.
pub open spec fn first_of(peers: Seq<NodeId>, count: nat) -> Seq<NodeId> {
    if count < peers.len() {
        peers.take(count as int)
    } else {
        peers
    }
}

/// At most the first `count` of `peers`, which are the members of a topic where
/// `peers` are sorted by distance from it.
pub fn first_members(peers: &Vec<NodeId>, count: usize) -> (members: Vec<NodeId>)
    ensures
        members@ == first_of(peers@, count as nat),
{
    let mut members: Vec<NodeId> = Vec::new();
    let mut i: usize = 0;
    while i < peers.len() && i < count
        invariant
            i <= peers.len(),
            i <= count,
            members@ == peers@.take(i as int),
        decreases peers.len() - i,
    {
        members.push(peers[i]);
        i = i + 1;
        assert(peers@.take(i as int).drop_last() =~= peers@.take(i - 1));
        assert(members@ =~= peers@.take(i as int));
    }
    assert(members@ =~= first_of(peers@, count as nat));
    members
}

/// The first `count` members of every chat, each with the chat, in order.
pub fn candidates(members: &Vec<(ChatName, Vec<NodeId>)>, count: usize) -> (pairs: Vec<
    (NodeId, ChatName),
>)
    ensures
        pairs@ == candidates_of(members@, count as nat),
{
    let mut pairs: Vec<(NodeId, ChatName)> = Vec::new();
    let mut i: usize = 0;
    while i < members.len()
        invariant
            i <= members.len(),
            pairs@ == candidates_of(members@.take(i as int), count as nat),
        decreases members.len() - i,
    {
        let chat: ChatName = members[i].0;
        let peers: Vec<NodeId> = first_members(&members[i].1, count);
        let ghost before = pairs@;
        let ghost with_chat = |peer: NodeId| (peer, chat);
        let mut j: usize = 0;
        while j < peers.len()
            invariant
                j <= peers.len(),
                with_chat == (|peer: NodeId| (peer, chat)),
                pairs@ == before + peers@.take(j as int).map_values(with_chat),
            decreases peers.len() - j,
        {
            pairs.push((peers[j], chat));
            j = j + 1;
            assert(pairs@ =~= before + peers@.take(j as int).map_values(with_chat));
        }
        i = i + 1;
        proof {
            assert(peers@.take(peers@.len() as int) =~= peers@);
            assert(members@.take(i as int).drop_last() =~= members@.take(i - 1));
            assert(members@.take(i as int).last() == members@[i - 1]);
        }
    }
    assert(members@.take(members@.len() as int) =~= members@);
    pairs
}

/// The first place from `from` on at which `peer` stands.
pub open spec fn place_of(nodes: Seq<(NodeId, Seq<ChatName>)>, peer: NodeId, from: int) -> Option<
    int,
>
    decreases nodes.len() - from,
{
    if from >= nodes.len() {
        None
    } else if nodes[from].0 == peer {
        Some(from)
    } else {
        place_of(nodes, peer, from + 1)
    }
}

/// The nodes after `chat` joined the chats of `peer`. A chat joins once.
pub open spec fn joined(
    nodes: Seq<(NodeId, Seq<ChatName>)>,
    peer: NodeId,
    chat: ChatName,
) -> Seq<(NodeId, Seq<ChatName>)> {
    match place_of(nodes, peer, 0) {
        Some(i) => if nodes[i].1.contains(chat) {
            nodes
        } else {
            nodes.update(i, (peer, nodes[i].1.push(chat)))
        },
        None => nodes.push((peer, seq![chat])),
    }
}

/// The chats of every node but `profile_peer`, nodes in order of appearance.
pub open spec fn grouped(pairs: Seq<(NodeId, ChatName)>, profile_peer: NodeId) -> Seq<
    (NodeId, Seq<ChatName>),
>
    decreases pairs.len(),
{
    if pairs.len() == 0 {
        Seq::empty()
    } else {
        let (peer, chat) = pairs.last();
        let before = grouped(pairs.drop_last(), profile_peer);
        if peer == profile_peer {
            before
        } else {
            joined(before, peer, chat)
        }
    }
}

/// The chats of `profile_peer`, in order.
pub open spec fn riding_along(pairs: Seq<(NodeId, ChatName)>, profile_peer: NodeId) -> Seq<Topic>
    decreases pairs.len(),
{
    if pairs.len() == 0 {
        Seq::empty()
    } else {
        let (peer, chat) = pairs.last();
        let before = riding_along(pairs.drop_last(), profile_peer);
        if peer == profile_peer {
            before.push(Topic::Chat(chat))
        } else {
            before
        }
    }
}

/// Whether `chats` holds `chat`.
fn has_chat(chats: &Vec<ChatName>, chat: &ChatName) -> (found: bool)
    ensures
        found == chats@.contains(*chat),
{
    crate::ids::contains_id(chats, chat)
}

/// Adds `chat` to the chats of `peer`.
fn join_chat(nodes: &mut Vec<Served>, peer: NodeId, chat: ChatName)
    ensures
        model(final(nodes)@) == joined(model(old(nodes)@), peer, chat),
{
    let ghost before = model(nodes@);
    let mut i: usize = 0;
    while i < nodes.len()
        invariant
            i <= nodes.len(),
            nodes@ == old(nodes)@,
            before == model(nodes@),
            place_of(before, peer, 0) == place_of(before, peer, i as int),
        decreases nodes.len() - i,
    {
        assert(before[i as int] == (nodes@[i as int].0, nodes@[i as int].1@));
        if same_id(&nodes[i].0, &peer) {
            if !has_chat(&nodes[i].1, &chat) {
                let node = &mut nodes[i];
                node.1.push(chat);
                assert(model(nodes@) =~= joined(before, peer, chat));
            }
            return ;
        }
        i = i + 1;
    }
    let mut chats: Vec<ChatName> = Vec::new();
    chats.push(chat);
    assert(chats@ =~= seq![chat]);
    nodes.push((peer, chats));
    assert(model(nodes@) =~= joined(before, peer, chat));
}

/// Splits the members of all chats into the chats that the node of the profile
/// serves, and the other nodes with their chats.
pub fn split(pairs: &Vec<(NodeId, ChatName)>, profile_peer: NodeId) -> (parts: (
    Vec<Topic>,
    Vec<Served>,
))
    ensures
        parts.0@ == riding_along(pairs@, profile_peer),
        model(parts.1@) == grouped(pairs@, profile_peer),
{
    let mut topics: Vec<Topic> = Vec::new();
    let mut nodes: Vec<Served> = Vec::new();
    assert(model(nodes@) =~= Seq::empty());
    let mut i: usize = 0;
    while i < pairs.len()
        invariant
            i <= pairs.len(),
            topics@ == riding_along(pairs@.take(i as int), profile_peer),
            model(nodes@) == grouped(pairs@.take(i as int), profile_peer),
        decreases pairs.len() - i,
    {
        let (peer, chat) = pairs[i];
        proof {
            assert(pairs@.take(i as int + 1).drop_last() =~= pairs@.take(i as int));
            assert(pairs@.take(i as int + 1).last() == (peer, chat));
        }
        if same_id(&peer, &profile_peer) {
            topics.push(Topic::Chat(chat));
        } else {
            join_chat(&mut nodes, peer, chat);
        }
        i = i + 1;
    }
    assert(pairs@.take(pairs@.len() as int) =~= pairs@);
    (topics, nodes)
}

/// Where, going down from `upto`, a node with `size` chats belongs: behind the
/// first that has no more.
pub open spec fn slot(order: Seq<(NodeId, Seq<ChatName>)>, size: nat, upto: int) -> int
    decreases upto,
{
    if upto <= 0 || order[upto - 1].1.len() <= size {
        upto
    } else {
        slot(order, size, upto - 1)
    }
}

/// The nodes by number of chats, fewest first. Nodes with as many keep their
/// order.
pub open spec fn by_size(nodes: Seq<(NodeId, Seq<ChatName>)>) -> Seq<(NodeId, Seq<ChatName>)>
    decreases nodes.len(),
{
    if nodes.len() == 0 {
        Seq::empty()
    } else {
        let order = by_size(nodes.drop_last());
        let node = nodes.last();
        order.insert(slot(order, node.1.len(), order.len() as int), node)
    }
}

/// Those of `chats` that are new to `seen`, each once.
pub open spec fn unseen(chats: Seq<ChatName>, seen: Seq<ChatName>) -> Seq<ChatName>
    decreases chats.len(),
{
    if chats.len() == 0 {
        Seq::empty()
    } else {
        let fresh = unseen(chats.drop_last(), seen);
        let chat = chats.last();
        if seen.contains(chat) || fresh.contains(chat) {
            fresh
        } else {
            fresh.push(chat)
        }
    }
}

/// Takes nodes from the end of `stack` until `total` chats are seen. Each node
/// takes on those of its chats that were not seen before it, and is passed over
/// where there are none.
pub open spec fn cover(
    stack: Seq<(NodeId, Seq<ChatName>)>,
    seen: Seq<ChatName>,
    total: nat,
) -> Seq<(NodeId, Seq<ChatName>)>
    decreases stack.len(),
{
    if seen.len() >= total || stack.len() == 0 {
        Seq::empty()
    } else {
        let (peer, chats) = stack.last();
        let fresh = unseen(chats, seen);
        let rest = cover(stack.drop_last(), seen + fresh, total);
        if fresh.len() == 0 {
            rest
        } else {
            seq![(peer, fresh)] + rest
        }
    }
}

/// Sorts nodes by number of chats, fewest first.
fn sort_by_size(nodes: Vec<Served>) -> (order: Vec<Served>)
    ensures
        model(order@) == by_size(model(nodes@)),
{
    let ghost all = nodes@;
    let mut order: Vec<Served> = Vec::new();
    assert(model(order@) =~= Seq::empty());
    for node in it: nodes
        invariant
            it.seq() == all,
            model(order@) == by_size(model(all.take(it.index() as int))),
    {
        let ghost before = model(order@);
        let ghost moved = node;
        let size: usize = node.1.len();
        let mut at: usize = order.len();
        while at > 0 && order[at - 1].1.len() > size
            invariant
                at <= order.len(),
                before == model(order@),
                slot(before, size as nat, before.len() as int) == slot(
                    before,
                    size as nat,
                    at as int,
                ),
            decreases at,
        {
            assert(before[at - 1].1.len() == order@[at - 1].1.len());
            at = at - 1;
        }
        proof {
            if at > 0 {
                assert(before[at - 1].1.len() == order@[at - 1].1.len());
            }
            let now = all.take(it.index() + 1);
            assert(model(now).drop_last() =~= model(all.take(it.index() as int)));
            assert(model(now).last() == (moved.0, moved.1@));
        }
        order.insert(at, node);
        assert(model(order@) =~= before.insert(at as int, (moved.0, moved.1@)));
    }
    assert(all.take(all.len() as int) =~= all);
    order
}

/// Whether every one of `chats` is served by some node of `nodes`.
pub open spec fn reachable(chats: Seq<ChatName>, nodes: Seq<(NodeId, Seq<ChatName>)>) -> bool {
    forall|chat: ChatName| #[trigger]
        chats.contains(chat) ==> exists|i: int|
            0 <= i < nodes.len() && (#[trigger] nodes[i]).1.contains(chat)
}

/// Whether the nodes serve nothing beyond `chats`.
pub open spec fn within(nodes: Seq<(NodeId, Seq<ChatName>)>, chats: Seq<ChatName>) -> bool {
    forall|i: int, k: int|
        0 <= i < nodes.len() && 0 <= k < nodes[i].1.len() ==> chats.contains(
            #[trigger] nodes[i].1[k],
        )
}

/// Whether every one of `chats` is in `seen` or served by some node of `nodes`.
spec fn left_to_see(
    chats: Seq<ChatName>,
    seen: Seq<ChatName>,
    nodes: Seq<(NodeId, Seq<ChatName>)>,
) -> bool {
    forall|chat: ChatName| #[trigger]
        chats.contains(chat) ==> seen.contains(chat) || exists|i: int|
            0 <= i < nodes.len() && (#[trigger] nodes[i]).1.contains(chat)
}

/// Distinct chats are no more than those they are among.
proof fn lemma_no_more(some: Seq<ChatName>, all: Seq<ChatName>)
    requires
        some.no_duplicates(),
        forall|chat: ChatName| #[trigger] some.contains(chat) ==> all.contains(chat),
    ensures
        some.len() <= all.len(),
{
    broadcast use vstd::seq_lib::seq_to_set_is_finite;

    some.unique_seq_to_set();
    all.lemma_cardinality_of_set();
    vstd::set_lib::lemma_len_subset(some.to_set(), all.to_set());
}

/// As many distinct chats as there are, all of them among those there are, are
/// all there are.
proof fn lemma_all_there_are(some: Seq<ChatName>, all: Seq<ChatName>, chat: ChatName)
    requires
        some.no_duplicates(),
        some.len() >= all.len(),
        forall|chat: ChatName| #[trigger] some.contains(chat) ==> all.contains(chat),
        all.contains(chat),
    ensures
        some.contains(chat),
{
    if !some.contains(chat) {
        let more = some.push(chat);
        assert forall|other: ChatName| #[trigger] more.contains(other) implies all.contains(
            other,
        ) by {
            let i = choose|i: int| 0 <= i < more.len() && more[i] == other;
            if i < some.len() {
                assert(some.contains(some[i]));
            }
        }
        lemma_no_more(more, all);
    }
}

proof fn lemma_unseen(chats: Seq<ChatName>, seen: Seq<ChatName>)
    ensures
        unseen(chats, seen).no_duplicates(),
        forall|chat: ChatName| #[trigger]
            unseen(chats, seen).contains(chat) <==> chats.contains(chat) && !seen.contains(chat),
    decreases chats.len(),
{
    if chats.len() > 0 {
        let shorter = chats.drop_last();
        let chat = chats.last();
        let fresh = unseen(shorter, seen);
        lemma_unseen(shorter, seen);
        let now = unseen(chats, seen);
        assert forall|other: ChatName| #[trigger]
            now.contains(other) <==> chats.contains(other) && !seen.contains(other) by {
            if now.contains(other) {
                let i = choose|i: int| 0 <= i < now.len() && now[i] == other;
                if i < fresh.len() {
                    assert(fresh.contains(fresh[i]));
                    let k = choose|k: int| 0 <= k < shorter.len() && shorter[k] == other;
                    assert(chats[k] == other);
                } else {
                    assert(chats[chats.len() - 1] == other);
                }
            }
            if chats.contains(other) && !seen.contains(other) {
                let k = choose|k: int| 0 <= k < chats.len() && chats[k] == other;
                if k < shorter.len() {
                    assert(shorter[k] == other);
                    assert(fresh.contains(other));
                    let i = choose|i: int| 0 <= i < fresh.len() && fresh[i] == other;
                    assert(now[i] == other);
                } else if !fresh.contains(other) {
                    assert(now[fresh.len() as int] == other);
                }
            }
        }
    }
}

/// What is seen stays distinct and among the chats.
proof fn lemma_seen_grows(chats: Seq<ChatName>, seen: Seq<ChatName>, of_node: Seq<ChatName>)
    requires
        seen.no_duplicates(),
        forall|chat: ChatName| #[trigger] seen.contains(chat) ==> chats.contains(chat),
        forall|k: int| 0 <= k < of_node.len() ==> chats.contains(#[trigger] of_node[k]),
    ensures
        (seen + unseen(of_node, seen)).no_duplicates(),
        forall|chat: ChatName| #[trigger]
            (seen + unseen(of_node, seen)).contains(chat) <==> seen.contains(chat)
                || of_node.contains(chat),
        forall|chat: ChatName| #[trigger]
            (seen + unseen(of_node, seen)).contains(chat) ==> chats.contains(chat),
{
    let fresh = unseen(of_node, seen);
    let now = seen + fresh;
    lemma_unseen(of_node, seen);
    assert forall|i: int, j: int| 0 <= i < now.len() && 0 <= j < now.len() && i != j implies now[i]
        != now[j] by {
        if i < seen.len() && j >= seen.len() {
            assert(fresh.contains(fresh[j - seen.len()]));
            assert(seen.contains(seen[i]));
        }
        if j < seen.len() && i >= seen.len() {
            assert(fresh.contains(fresh[i - seen.len()]));
            assert(seen.contains(seen[j]));
        }
    }
    assert forall|chat: ChatName| #[trigger]
        now.contains(chat) <==> seen.contains(chat) || of_node.contains(chat) by {
        if now.contains(chat) {
            let i = choose|i: int| 0 <= i < now.len() && now[i] == chat;
            if i < seen.len() {
                assert(seen[i] == chat);
            } else {
                assert(fresh[i - seen.len()] == chat);
                assert(fresh.contains(chat));
            }
        }
        if seen.contains(chat) {
            let i = choose|i: int| 0 <= i < seen.len() && seen[i] == chat;
            assert(now[i] == chat);
        } else if of_node.contains(chat) {
            assert(fresh.contains(chat));
            let i = choose|i: int| 0 <= i < fresh.len() && fresh[i] == chat;
            assert(now[seen.len() + i] == chat);
        }
    }
}

/// Sorting keeps exactly the nodes there are, and puts no node in front of one
/// with fewer chats.
pub proof fn lemma_by_size_sorts(nodes: Seq<(NodeId, Seq<ChatName>)>)
    ensures
        by_size(nodes).to_multiset() == nodes.to_multiset(),
        forall|i: int, j: int|
            0 <= i <= j < by_size(nodes).len() ==> (#[trigger] by_size(nodes)[i]).1.len() <= (
            #[trigger] by_size(nodes)[j]).1.len(),
    decreases nodes.len(),
{
    broadcast use vstd::seq_lib::group_to_multiset_ensures;

    if nodes.len() == 0 {
        assert(by_size(nodes) =~= nodes);
    } else {
        let shorter = nodes.drop_last();
        let node = nodes.last();
        let order = by_size(shorter);
        lemma_by_size_sorts(shorter);
        lemma_slot(order, node.1.len(), order.len() as int);
        let at = slot(order, node.1.len(), order.len() as int);
        let now = order.insert(at, node);
        assert(shorter.push(node) =~= nodes);
        vstd::seq_lib::to_multiset_insert(order, at, node);
        assert(nodes.to_multiset() =~= shorter.to_multiset().insert(node));
    }
}

proof fn lemma_slot(order: Seq<(NodeId, Seq<ChatName>)>, size: nat, upto: int)
    requires
        0 <= upto <= order.len(),
        forall|i: int, j: int|
            0 <= i <= j < order.len() ==> (#[trigger] order[i]).1.len() <= (
            #[trigger] order[j]).1.len(),
        forall|i: int| upto <= i < order.len() ==> (#[trigger] order[i]).1.len() > size,
    ensures
        0 <= slot(order, size, upto) <= upto,
        forall|i: int| 0 <= i < slot(order, size, upto) ==> (#[trigger] order[i]).1.len() <= size,
        forall|i: int|
            slot(order, size, upto) <= i < order.len() ==> (#[trigger] order[i]).1.len() > size,
    decreases upto,
{
    if upto > 0 && order[upto - 1].1.len() > size {
        lemma_slot(order, size, upto - 1);
    }
}

/// Sorting adds and drops no node.
proof fn lemma_by_size_same_nodes(nodes: Seq<(NodeId, Seq<ChatName>)>)
    ensures
        forall|node: (NodeId, Seq<ChatName>)| #[trigger]
            by_size(nodes).contains(node) <==> nodes.contains(node),
{
    broadcast use vstd::seq_lib::group_to_multiset_ensures;

    lemma_by_size_sorts(nodes);
    assert forall|node: (NodeId, Seq<ChatName>)| #[trigger]
        by_size(nodes).contains(node) <==> nodes.contains(node) by {
        assert(by_size(nodes).to_multiset().count(node) == nodes.to_multiset().count(node));
    }
}

/// What the planner needs of the nodes holds of them in any order.
proof fn lemma_sorted_serves_the_same(chats: Seq<ChatName>, nodes: Seq<(NodeId, Seq<ChatName>)>)
    requires
        within(nodes, chats),
        reachable(chats, nodes),
    ensures
        within(by_size(nodes), chats),
        left_to_see(chats, Seq::empty(), by_size(nodes)),
{
    let order = by_size(nodes);
    lemma_by_size_same_nodes(nodes);
    assert forall|i: int, k: int|
        0 <= i < order.len() && 0 <= k < order[i].1.len() implies chats.contains(
        #[trigger] order[i].1[k],
    ) by {
        assert(order.contains(order[i]));
        let j = choose|j: int| 0 <= j < nodes.len() && nodes[j] == order[i];
        assert(chats.contains(nodes[j].1[k]));
    }
    assert forall|chat: ChatName| #[trigger] chats.contains(chat) implies exists|i: int|
        0 <= i < order.len() && (#[trigger] order[i]).1.contains(chat) by {
        let j = choose|j: int| 0 <= j < nodes.len() && (#[trigger] nodes[j]).1.contains(chat);
        assert(nodes.contains(nodes[j]));
        assert(order.contains(nodes[j]));
        let i = choose|i: int| 0 <= i < order.len() && order[i] == nodes[j];
        assert(order[i].1.contains(chat));
    }
}

/// After the last node of `stack` has been looked at, what is not seen is
/// served by those in front of it.
proof fn lemma_left_after_pop(
    chats: Seq<ChatName>,
    seen: Seq<ChatName>,
    stack: Seq<(NodeId, Seq<ChatName>)>,
)
    requires
        stack.len() > 0,
        seen.no_duplicates(),
        forall|chat: ChatName| #[trigger] seen.contains(chat) ==> chats.contains(chat),
        within(stack, chats),
        left_to_see(chats, seen, stack),
    ensures
        left_to_see(chats, seen + unseen(stack.last().1, seen), stack.drop_last()),
        within(stack.drop_last(), chats),
{
    let of_node = stack.last().1;
    let now = seen + unseen(of_node, seen);
    let rest = stack.drop_last();
    assert forall|k: int| 0 <= k < of_node.len() implies chats.contains(#[trigger] of_node[k]) by {
        assert(chats.contains(stack[stack.len() - 1].1[k]));
    }
    lemma_seen_grows(chats, seen, of_node);
    assert forall|chat: ChatName| #[trigger] chats.contains(chat) implies now.contains(chat)
        || exists|i: int| 0 <= i < rest.len() && (#[trigger] rest[i]).1.contains(chat) by {
        if !seen.contains(chat) {
            let i = choose|i: int| 0 <= i < stack.len() && (#[trigger] stack[i]).1.contains(chat);
            if i < rest.len() {
                assert(rest[i].1.contains(chat));
            }
        }
    }
    assert forall|i: int, k: int|
        0 <= i < rest.len() && 0 <= k < rest[i].1.len() implies chats.contains(
        #[trigger] rest[i].1[k],
    ) by {
        assert(chats.contains(stack[i].1[k]));
    }
}

/// While a chat is not seen, some node is left.
proof fn lemma_some_node_left(
    chats: Seq<ChatName>,
    seen: Seq<ChatName>,
    stack: Seq<(NodeId, Seq<ChatName>)>,
)
    requires
        chats.no_duplicates(),
        seen.len() < chats.len(),
        left_to_see(chats, seen, stack),
    ensures
        stack.len() > 0,
{
    if stack.len() == 0 {
        lemma_no_more(chats, seen);
    }
}

/// Those of `chats` that are new to `seen`, each once.
fn take_unseen(chats: &Vec<ChatName>, seen: &Vec<ChatName>) -> (fresh: Vec<ChatName>)
    ensures
        fresh@ == unseen(chats@, seen@),
{
    let mut fresh: Vec<ChatName> = Vec::new();
    let mut i: usize = 0;
    while i < chats.len()
        invariant
            i <= chats.len(),
            fresh@ == unseen(chats@.take(i as int), seen@),
        decreases chats.len() - i,
    {
        assert(chats@.take(i as int + 1).drop_last() =~= chats@.take(i as int));
        if !has_chat(seen, &chats[i]) && !has_chat(&fresh, &chats[i]) {
            fresh.push(chats[i]);
        }
        i = i + 1;
    }
    assert(chats@.take(chats@.len() as int) =~= chats@);
    fresh
}

/// Which nodes to connect to, and for which chats, so that every one of `chats`
/// is served. Nodes with more chats come first.
pub fn plan_connections(nodes: Vec<Served>, chats: &Vec<ChatName>) -> (plan: Vec<Served>)
    requires
        chats@.no_duplicates(),
        within(model(nodes@), chats@),
        reachable(chats@, model(nodes@)),
    ensures
        model(plan@) == cover(by_size(model(nodes@)), Seq::empty(), chats@.len()),
{
    let ghost goal = cover(by_size(model(nodes@)), Seq::empty(), chats@.len());
    proof {
        lemma_sorted_serves_the_same(chats@, model(nodes@));
    }
    let mut stack: Vec<Served> = sort_by_size(nodes);
    let mut seen: Vec<ChatName> = Vec::new();
    let mut plan: Vec<Served> = Vec::new();
    assert(model(plan@) + goal =~= goal);
    assert(seen@ =~= Seq::empty());
    while seen.len() < chats.len()
        invariant
            chats@.no_duplicates(),
            seen@.no_duplicates(),
            forall|chat: ChatName| #[trigger] seen@.contains(chat) ==> chats@.contains(chat),
            within(model(stack@), chats@),
            left_to_see(chats@, seen@, model(stack@)),
            model(plan@) + cover(model(stack@), seen@, chats@.len()) == goal,
        decreases stack.len(),
    {
        let ghost before = model(stack@);
        let ghost seen_before = seen@;
        let ghost planned = model(plan@);
        proof {
            lemma_some_node_left(chats@, seen@, before);
            lemma_left_after_pop(chats@, seen@, before);
            let of_node = before.last().1;
            assert forall|k: int| 0 <= k < of_node.len() implies chats@.contains(
                #[trigger] of_node[k],
            ) by {
                assert(chats@.contains(before[before.len() - 1].1[k]));
            }
            lemma_seen_grows(chats@, seen@, of_node);
        }
        match stack.pop() {
            Some((peer, of_node)) => {
                assert(before.last() == (peer, of_node@));
                assert(model(stack@) =~= before.drop_last());
                let mut fresh: Vec<ChatName> = take_unseen(&of_node, &seen);
                let ghost taken = fresh@;
                let mut i: usize = 0;
                while i < fresh.len()
                    invariant
                        i <= fresh.len(),
                        fresh@ == taken,
                        seen@ == seen_before + taken.take(i as int),
                    decreases fresh.len() - i,
                {
                    seen.push(fresh[i]);
                    i = i + 1;
                    assert(seen@ =~= seen_before + taken.take(i as int));
                }
                assert(taken.take(taken.len() as int) =~= taken);
                let ghost rest = cover(model(stack@), seen@, chats@.len());
                if fresh.len() > 0 {
                    plan.push((peer, fresh));
                    assert(model(plan@) =~= planned.push((peer, taken)));
                    assert(model(plan@) + rest =~= planned + (seq![(peer, taken)] + rest));
                }
            },
            None => {},
        }
    }
    assert(model(plan@) + Seq::empty() =~= model(plan@));
    plan
}

/// The plan connects to each node for chats that it serves, at least one, and
/// no chat is asked of two nodes.
pub open spec fn is_plan(
    plan: Seq<(NodeId, Seq<ChatName>)>,
    nodes: Seq<(NodeId, Seq<ChatName>)>,
) -> bool {
    &&& forall|i: int|
        0 <= i < plan.len() ==> (#[trigger] plan[i]).1.len() > 0 && plan[i].1.no_duplicates()
    &&& forall|i: int| 0 <= i < plan.len() ==> takes_part(#[trigger] plan[i], nodes)
    &&& forall|i: int, j: int|
        0 <= i < j < plan.len() ==> disjoint_chats((#[trigger] plan[i]).1, (#[trigger] plan[j]).1)
}

/// Some node of `nodes` serves what `part` asks of it.
pub open spec fn takes_part(
    part: (NodeId, Seq<ChatName>),
    nodes: Seq<(NodeId, Seq<ChatName>)>,
) -> bool {
    exists|j: int|
        {
            &&& 0 <= j < nodes.len()
            &&& (#[trigger] nodes[j]).0 == part.0
            &&& forall|chat: ChatName| #[trigger]
                part.1.contains(chat) ==> nodes[j].1.contains(chat)
        }
}

/// No chat stands in both.
pub open spec fn disjoint_chats(a: Seq<ChatName>, b: Seq<ChatName>) -> bool {
    forall|chat: ChatName| a.contains(chat) ==> !#[trigger] b.contains(chat)
}

/// Whether the plan asks some node for `chat`.
pub open spec fn planned(plan: Seq<(NodeId, Seq<ChatName>)>, chat: ChatName) -> bool {
    exists|i: int| 0 <= i < plan.len() && (#[trigger] plan[i]).1.contains(chat)
}

proof fn lemma_cover(
    stack: Seq<(NodeId, Seq<ChatName>)>,
    seen: Seq<ChatName>,
    chats: Seq<ChatName>,
)
    requires
        chats.no_duplicates(),
        seen.no_duplicates(),
        forall|chat: ChatName| #[trigger] seen.contains(chat) ==> chats.contains(chat),
        within(stack, chats),
        left_to_see(chats, seen, stack),
    ensures
        is_plan(cover(stack, seen, chats.len()), stack),
        forall|chat: ChatName| #[trigger]
            chats.contains(chat) ==> seen.contains(chat) != planned(
                cover(stack, seen, chats.len()),
                chat,
            ),
        forall|chat: ChatName| #[trigger]
            planned(cover(stack, seen, chats.len()), chat) ==> chats.contains(chat),
    decreases stack.len(),
{
    let plan = cover(stack, seen, chats.len());
    if seen.len() >= chats.len() {
        assert forall|chat: ChatName| #[trigger] chats.contains(chat) implies seen.contains(
            chat,
        ) by {
            lemma_all_there_are(seen, chats, chat);
        }
    } else {
        lemma_some_node_left(chats, seen, stack);
        let (peer, of_node) = stack.last();
        let fresh = unseen(of_node, seen);
        let now = seen + fresh;
        let below = stack.drop_last();
        let rest = cover(below, now, chats.len());
        lemma_left_after_pop(chats, seen, stack);
        assert forall|k: int| 0 <= k < of_node.len() implies chats.contains(
            #[trigger] of_node[k],
        ) by {
            assert(chats.contains(stack[stack.len() - 1].1[k]));
        }
        lemma_seen_grows(chats, seen, of_node);
        lemma_unseen(of_node, seen);
        lemma_cover(below, now, chats);
        let shift: int = if fresh.len() == 0 {
            0
        } else {
            1
        };
        assert(plan.len() == rest.len() + shift);
        assert forall|i: int| 0 <= i < plan.len() implies takes_part(#[trigger] plan[i], stack) by {
            if i < shift {
                assert(stack[stack.len() - 1].0 == plan[i].0);
            } else {
                assert(takes_part(rest[i - shift], below));
                let j = choose|j: int|
                    {
                        &&& 0 <= j < below.len()
                        &&& (#[trigger] below[j]).0 == rest[i - shift].0
                        &&& forall|chat: ChatName| #[trigger]
                            rest[i - shift].1.contains(chat) ==> below[j].1.contains(chat)
                    };
                assert(stack[j] == below[j]);
            }
        }
        assert forall|i: int, j: int| 0 <= i < j < plan.len() implies disjoint_chats(
            (#[trigger] plan[i]).1,
            (#[trigger] plan[j]).1,
        ) by {
            if i < shift {
                assert forall|chat: ChatName|
                    plan[i].1.contains(chat) implies !#[trigger] plan[j].1.contains(chat) by {
                    if plan[j].1.contains(chat) {
                        assert(rest[j - shift].1.contains(chat));
                        assert(planned(rest, chat));
                        assert(chats.contains(chat));
                        assert(now.contains(chat));
                    }
                }
            } else {
                assert(disjoint_chats(rest[i - shift].1, rest[j - shift].1));
            }
        }
        assert forall|chat: ChatName| #[trigger] planned(plan, chat) <==> fresh.contains(chat)
            || planned(rest, chat) by {
            if planned(plan, chat) {
                let i = choose|i: int| 0 <= i < plan.len() && (#[trigger] plan[i]).1.contains(chat);
                if i >= shift {
                    assert(rest[i - shift].1.contains(chat));
                }
            }
            if fresh.contains(chat) {
                assert(fresh.len() > 0);
                assert(plan[0].1.contains(chat));
            }
            if planned(rest, chat) {
                let i = choose|i: int| 0 <= i < rest.len() && (#[trigger] rest[i]).1.contains(chat);
                assert(plan[i + shift].1.contains(chat));
            }
        }
        assert forall|chat: ChatName| #[trigger] chats.contains(chat) implies seen.contains(chat)
            != planned(plan, chat) by {
            assert(now.contains(chat) != planned(rest, chat));
            assert(planned(plan, chat) <==> fresh.contains(chat) || planned(rest, chat));
        }
    }
}

/// Every chat of the user is asked of exactly one node, which serves it, and
/// nothing else is asked of anyone.
pub proof fn lemma_plan_serves_every_chat(
    nodes: Seq<(NodeId, Seq<ChatName>)>,
    chats: Seq<ChatName>,
)
    requires
        chats.no_duplicates(),
        within(nodes, chats),
        reachable(chats, nodes),
    ensures
        is_plan(cover(by_size(nodes), Seq::empty(), chats.len()), nodes),
        forall|chat: ChatName| #[trigger]
            planned(cover(by_size(nodes), Seq::empty(), chats.len()), chat) <==> chats.contains(
                chat,
            ),
{
    let order = by_size(nodes);
    let plan = cover(order, Seq::empty(), chats.len());
    lemma_sorted_serves_the_same(chats, nodes);
    lemma_cover(order, Seq::empty(), chats);
    lemma_by_size_same_nodes(nodes);
    assert forall|i: int| 0 <= i < plan.len() implies takes_part(#[trigger] plan[i], nodes) by {
        assert(takes_part(plan[i], order));
        let j = choose|j: int|
            {
                &&& 0 <= j < order.len()
                &&& (#[trigger] order[j]).0 == plan[i].0
                &&& forall|chat: ChatName| #[trigger]
                    plan[i].1.contains(chat) ==> order[j].1.contains(chat)
            };
        assert(order.contains(order[j]));
        let k = choose|k: int| 0 <= k < nodes.len() && nodes[k] == order[j];
        assert(nodes[k].0 == plan[i].0);
    }
    assert forall|chat: ChatName| #[trigger] planned(plan, chat) <==> chats.contains(chat) by {
        assert(!Seq::<ChatName>::empty().contains(chat));
    }
}

/// Whether `nodes` lists `chat` for `peer`.
pub open spec fn lists(
    nodes: Seq<(NodeId, Seq<ChatName>)>,
    peer: NodeId,
    chat: ChatName,
) -> bool {
    exists|i: int|
        0 <= i < nodes.len() && (#[trigger] nodes[i]).0 == peer && nodes[i].1.contains(chat)
}

/// No node is listed twice, and no chat twice for one node.
pub open spec fn listed_once(nodes: Seq<(NodeId, Seq<ChatName>)>) -> bool {
    &&& forall|i: int, j: int|
        0 <= i < nodes.len() && 0 <= j < nodes.len() && i != j ==> (#[trigger] nodes[i]).0 != (
        #[trigger] nodes[j]).0
    &&& forall|i: int| 0 <= i < nodes.len() ==> (#[trigger] nodes[i]).1.no_duplicates()
}

proof fn lemma_place_of(nodes: Seq<(NodeId, Seq<ChatName>)>, peer: NodeId, from: int)
    requires
        0 <= from,
    ensures
        match place_of(nodes, peer, from) {
            Some(i) => from <= i < nodes.len() && nodes[i].0 == peer,
            None => forall|k: int| from <= k < nodes.len() ==> (#[trigger] nodes[k]).0 != peer,
        },
    decreases nodes.len() - from,
{
    if from < nodes.len() && nodes[from].0 != peer {
        lemma_place_of(nodes, peer, from + 1);
    }
}

proof fn lemma_joined(
    nodes: Seq<(NodeId, Seq<ChatName>)>,
    peer: NodeId,
    chat: ChatName,
    p: NodeId,
    c: ChatName,
)
    requires
        listed_once(nodes),
    ensures
        listed_once(joined(nodes, peer, chat)),
        lists(joined(nodes, peer, chat), p, c) <==> lists(nodes, p, c) || (p == peer && c == chat),
{
    let now = joined(nodes, peer, chat);
    lemma_place_of(nodes, peer, 0);
    match place_of(nodes, peer, 0) {
        Some(at) => {
            let chats = nodes[at].1;
            if !chats.contains(chat) {
                let more = chats.push(chat);
                assert(now[at].1 == more);
                assert(more[chats.len() as int] == chat);
                assert forall|x: ChatName| #[trigger] more.contains(x) <==> chats.contains(x) || x
                    == chat by {
                    if chats.contains(x) {
                        let k = choose|k: int| 0 <= k < chats.len() && chats[k] == x;
                        assert(more[k] == x);
                    }
                }
                if lists(nodes, p, c) {
                    let i = choose|i: int|
                        0 <= i < nodes.len() && (#[trigger] nodes[i]).0 == p
                            && nodes[i].1.contains(c);
                    assert(now[i].0 == p && now[i].1.contains(c));
                }
                if lists(now, p, c) {
                    let i = choose|i: int|
                        0 <= i < now.len() && (#[trigger] now[i]).0 == p && now[i].1.contains(c);
                    assert(nodes[i].0 == p);
                }
            }
        },
        None => {
            assert(now[nodes.len() as int].1[0] == chat);
            if lists(nodes, p, c) {
                let i = choose|i: int|
                    0 <= i < nodes.len() && (#[trigger] nodes[i]).0 == p && nodes[i].1.contains(c);
                assert(now[i] == nodes[i]);
            }
            if lists(now, p, c) {
                let i = choose|i: int|
                    0 <= i < now.len() && (#[trigger] now[i]).0 == p && now[i].1.contains(c);
                if i < nodes.len() {
                    assert(nodes[i] == now[i]);
                }
            }
        },
    }
}

/// Every member of a chat is accounted for once: the node of the profile by a
/// topic on its own path, every other node by an entry of its own.
pub proof fn lemma_split_is_faithful(
    pairs: Seq<(NodeId, ChatName)>,
    profile_peer: NodeId,
    peer: NodeId,
    chat: ChatName,
)
    ensures
        listed_once(grouped(pairs, profile_peer)),
        lists(grouped(pairs, profile_peer), peer, chat) <==> peer != profile_peer
            && pairs.contains((peer, chat)),
        riding_along(pairs, profile_peer).contains(Topic::Chat(chat)) <==> pairs.contains(
            (profile_peer, chat),
        ),
    decreases pairs.len(),
{
    if pairs.len() > 0 {
        let shorter = pairs.drop_last();
        let (p, c) = pairs.last();
        lemma_split_is_faithful(shorter, profile_peer, peer, chat);
        lemma_joined(grouped(shorter, profile_peer), p, c, peer, chat);
        assert forall|pair: (NodeId, ChatName)| #[trigger]
            pairs.contains(pair) <==> shorter.contains(pair) || pair == (p, c) by {
            assert(pairs[pairs.len() - 1] == (p, c));
            if shorter.contains(pair) {
                let k = choose|k: int| 0 <= k < shorter.len() && shorter[k] == pair;
                assert(pairs[k] == pair);
            }
            if pairs.contains(pair) && pair != (p, c) {
                let k = choose|k: int| 0 <= k < pairs.len() && pairs[k] == pair;
                assert(shorter[k] == pair);
            }
        }
        let before = riding_along(shorter, profile_peer);
        let now = riding_along(pairs, profile_peer);
        if p == profile_peer {
            assert(now[before.len() as int] == Topic::Chat(c));
            if before.contains(Topic::Chat(chat)) {
                let k = choose|k: int| 0 <= k < before.len() && before[k] == Topic::Chat(chat);
                assert(now[k] == Topic::Chat(chat));
            }
            if now.contains(Topic::Chat(chat)) {
                let k = choose|k: int| 0 <= k < now.len() && now[k] == Topic::Chat(chat);
                if k < before.len() {
                    assert(before[k] == Topic::Chat(chat));
                }
            }
        }
    }
}

/// The chats whose members are given.
pub open spec fn names(members: Seq<(ChatName, Vec<NodeId>)>) -> Seq<ChatName> {
    members.map_values(|of_chat: (ChatName, Vec<NodeId>)| of_chat.0)
}

/// Whether `peer` is among the first `count` members of chat `k`.
pub open spec fn is_member(
    members: Seq<(ChatName, Vec<NodeId>)>,
    count: nat,
    k: int,
    peer: NodeId,
) -> bool {
    0 <= k < members.len() && first_of(members[k].1@, count).contains(peer)
}

/// A pair of a node and a chat is a candidate exactly where the node is among
/// the first members of the chat.
pub proof fn lemma_candidates(
    members: Seq<(ChatName, Vec<NodeId>)>,
    count: nat,
    peer: NodeId,
    chat: ChatName,
)
    ensures
        candidates_of(members, count).contains((peer, chat)) <==> exists|k: int| #[trigger]
            is_member(members, count, k, peer) && members[k].0 == chat,
    decreases members.len(),
{
    let all = candidates_of(members, count);
    if members.len() > 0 {
        let shorter = members.drop_last();
        let n = members.len() - 1;
        let before = candidates_of(shorter, count);
        let first = first_of(members.last().1@, count);
        lemma_candidates(shorter, count, peer, chat);
        if all.contains((peer, chat)) {
            let i = choose|i: int| 0 <= i < all.len() && all[i] == (peer, chat);
            if i < before.len() {
                assert(before[i] == (peer, chat));
                let k = choose|k: int| #[trigger]
                    is_member(shorter, count, k, peer) && shorter[k].0 == chat;
                assert(is_member(members, count, k, peer));
            } else {
                assert(first[i - before.len()] == peer);
                assert(is_member(members, count, n, peer));
            }
        }
        if exists|k: int| #[trigger] is_member(members, count, k, peer) && members[k].0 == chat {
            let k = choose|k: int| #[trigger]
                is_member(members, count, k, peer) && members[k].0 == chat;
            if k < n {
                assert(is_member(shorter, count, k, peer));
                let i = choose|i: int| 0 <= i < before.len() && before[i] == (peer, chat);
                assert(all[i] == (peer, chat));
            } else {
                let i = choose|i: int| 0 <= i < first.len() && first[i] == peer;
                assert(all[before.len() + i] == (peer, chat));
            }
        }
    }
}

/// Whether chat `k` has a member other than the node of the profile.
pub open spec fn has_other_member(
    members: Seq<(ChatName, Vec<NodeId>)>,
    count: nat,
    k: int,
    profile_peer: NodeId,
) -> bool {
    exists|peer: NodeId| #[trigger]
        is_member(members, count, k, peer) && peer != profile_peer
}

/// The nodes that the chats are asked of, the node of the profile left out.
pub open spec fn other_nodes(
    members: Seq<(ChatName, Vec<NodeId>)>,
    count: nat,
    profile_peer: NodeId,
) -> Seq<(NodeId, Seq<ChatName>)> {
    grouped(candidates_of(members, count), profile_peer)
}

/// The other nodes serve exactly the chats, where each has another member.
pub proof fn lemma_other_nodes_serve_the_chats(
    members: Seq<(ChatName, Vec<NodeId>)>,
    count: nat,
    profile_peer: NodeId,
)
    requires
        forall|k: int|
            0 <= k < members.len() ==> #[trigger] has_other_member(
                members,
                count,
                k,
                profile_peer,
            ),
    ensures
        within(other_nodes(members, count, profile_peer), names(members)),
        reachable(names(members), other_nodes(members, count, profile_peer)),
{
    let nodes = other_nodes(members, count, profile_peer);
    let pairs = candidates_of(members, count);
    let chats = names(members);
    assert forall|i: int, k: int|
        0 <= i < nodes.len() && 0 <= k < nodes[i].1.len() implies chats.contains(
        #[trigger] nodes[i].1[k],
    ) by {
        let (peer, chat) = (nodes[i].0, nodes[i].1[k]);
        assert(nodes[i].1.contains(chat));
        assert(lists(nodes, peer, chat));
        lemma_split_is_faithful(pairs, profile_peer, peer, chat);
        lemma_candidates(members, count, peer, chat);
        let j = choose|j: int| #[trigger]
            is_member(members, count, j, peer) && members[j].0 == chat;
        assert(chats[j] == chat);
    }
    assert forall|chat: ChatName| #[trigger] chats.contains(chat) implies exists|i: int|
        0 <= i < nodes.len() && (#[trigger] nodes[i]).1.contains(chat) by {
        let j = choose|j: int| 0 <= j < chats.len() && chats[j] == chat;
        assert(has_other_member(members, count, j, profile_peer));
        let peer = choose|peer: NodeId| #[trigger]
            is_member(members, count, j, peer) && peer != profile_peer;
        lemma_candidates(members, count, peer, chat);
        lemma_split_is_faithful(pairs, profile_peer, peer, chat);
        assert(lists(nodes, peer, chat));
    }
}

/// What a starting client subscribes to: the chats that ride along on the path
/// to the node of the profile, and the nodes to open paths to, with the chats
/// asked of each. `members` gives the nodes closest to every chat, of which the
/// first `count` are its members.
pub fn connections(
    members: &Vec<(ChatName, Vec<NodeId>)>,
    count: usize,
    profile_peer: NodeId,
) -> (parts: (Vec<Topic>, Vec<Served>))
    requires
        names(members@).no_duplicates(),
        forall|k: int|
            0 <= k < members@.len() ==> #[trigger] has_other_member(
                members@,
                count as nat,
                k,
                profile_peer,
            ),
    ensures
        parts.0@ == riding_along(candidates_of(members@, count as nat), profile_peer),
        model(parts.1@) == cover(
            by_size(other_nodes(members@, count as nat, profile_peer)),
            Seq::empty(),
            members@.len(),
        ),
{
    let pairs: Vec<(NodeId, ChatName)> = candidates(members, count);
    let (topics, nodes) = split(&pairs, profile_peer);
    let mut chats: Vec<ChatName> = Vec::new();
    let mut i: usize = 0;
    while i < members.len()
        invariant
            i <= members.len(),
            chats@ == names(members@).take(i as int),
        decreases members.len() - i,
    {
        chats.push(members[i].0);
        i = i + 1;
        assert(chats@ =~= names(members@).take(i as int));
    }
    proof {
        assert(chats@ =~= names(members@));
        lemma_other_nodes_serve_the_chats(members@, count as nat, profile_peer);
    }
    (topics, plan_connections(nodes, &chats))
}

/// The members are the closest peers: as many as `count` says, where there are as
/// many, and otherwise all, each in its own place.
pub proof fn lemma_members_are_the_closest(peers: Vec<NodeId>, count: usize)
    ensures
        first_of(peers@, count as nat).len() == if count <= peers@.len() {
            count as nat
        } else {
            peers@.len()
        },
        forall|i: int|
            0 <= i < peers@.len() && i < count ==> #[trigger] first_of(peers@, count as nat)[i]
                == peers@[i],
        forall|members: Vec<NodeId>| #[trigger]
            call_ensures(first_members, (&peers, count), members) ==> {
                &&& members@.len() == if count <= peers@.len() {
                    count as nat
                } else {
                    peers@.len()
                }
                &&& forall|i: int| 0 <= i < members@.len() ==> #[trigger] members@[i] == peers@[i]
            },
{
}

/// A node is among the first `count` members of chat `k` exactly where it stands at
/// one of the first `count` places.
pub proof fn lemma_is_member(
    members: Seq<(ChatName, Vec<NodeId>)>,
    count: nat,
    k: int,
    peer: NodeId,
)
    requires
        0 <= k < members.len(),
    ensures
        is_member(members, count, k, peer) <==> exists|i: int|
            0 <= i < members[k].1@.len() && i < count && #[trigger] members[k].1@[i] == peer,
{
    let first = first_of(members[k].1@, count);
    if is_member(members, count, k, peer) {
        let i = choose|i: int| 0 <= i < first.len() && first[i] == peer;
        assert(members[k].1@[i] == peer);
    }
    if exists|i: int|
        0 <= i < members[k].1@.len() && i < count && #[trigger] members[k].1@[i] == peer {
        let i = choose|i: int|
            0 <= i < members[k].1@.len() && i < count && #[trigger] members[k].1@[i] == peer;
        assert(first[i] == peer);
    }
}

/// The candidates of several chats are those of each, one after the other.
pub proof fn lemma_candidates_chat_by_chat(
    some: Seq<(ChatName, Vec<NodeId>)>,
    more: Seq<(ChatName, Vec<NodeId>)>,
    count: nat,
)
    ensures
        candidates_of(some + more, count) == candidates_of(some, count) + candidates_of(
            more,
            count,
        ),
    decreases more.len(),
{
    let all = some + more;
    if more.len() == 0 {
        assert(all =~= some);
    } else {
        lemma_candidates_chat_by_chat(some, more.drop_last(), count);
        assert(all.drop_last() =~= some + more.drop_last());
        assert(candidates_of(all, count) =~= candidates_of(some, count) + candidates_of(
            more,
            count,
        ));
    }
}

/// The candidates of one chat are its first `count` members, in order, and without
/// chats there are none.
pub proof fn lemma_candidates_of_one_chat(chat: ChatName, peers: Vec<NodeId>, count: nat)
    ensures
        candidates_of(Seq::empty(), count).len() == 0,
        candidates_of(seq![(chat, peers)], count).len() == if count <= peers@.len() {
            count
        } else {
            peers@.len()
        },
        forall|i: int|
            0 <= i < peers@.len() && i < count ==> #[trigger] candidates_of(
                seq![(chat, peers)],
                count,
            )[i] == (peers@[i], chat),
{
    let one = seq![(chat, peers)];
    assert(one.drop_last() =~= Seq::empty());
    assert(candidates_of(one.drop_last(), count).len() == 0);
}

/// `peer` is a candidate for `chat`: it stands at one of the first `count` places of
/// some list of the chat's members.
pub open spec fn close_to(
    members: Seq<(ChatName, Vec<NodeId>)>,
    count: int,
    peer: NodeId,
    chat: ChatName,
) -> bool {
    exists|k: int, i: int|
        {
            &&& 0 <= k < members.len()
            &&& members[k].0 == chat
            &&& 0 <= i < members[k].1@.len()
            &&& i < count
            &&& #[trigger] members[k].1@[i] == peer
        }
}

/// The candidates are the nodes close to the chats.
pub proof fn lemma_close_to(
    members: Seq<(ChatName, Vec<NodeId>)>,
    count: nat,
    peer: NodeId,
    chat: ChatName,
)
    ensures
        candidates_of(members, count).contains((peer, chat)) <==> close_to(
            members,
            count as int,
            peer,
            chat,
        ),
{
    lemma_candidates(members, count, peer, chat);
    if candidates_of(members, count).contains((peer, chat)) {
        let k = choose|k: int| #[trigger]
            is_member(members, count, k, peer) && members[k].0 == chat;
        lemma_is_member(members, count, k, peer);
    }
    if close_to(members, count as int, peer, chat) {
        let (k, i) = choose|k: int, i: int|
            {
                &&& 0 <= k < members.len()
                &&& members[k].0 == chat
                &&& 0 <= i < members[k].1@.len()
                &&& i < count
                &&& #[trigger] members[k].1@[i] == peer
            };
        lemma_is_member(members, count, k, peer);
        assert(is_member(members, count, k, peer) && members[k].0 == chat);
    }
}

/// The candidates are the nodes close to the chats, and no others, in their order.
pub proof fn lemma_candidates_are_close(
    members: Vec<(ChatName, Vec<NodeId>)>,
    count: usize,
    peer: NodeId,
    chat: ChatName,
)
    ensures
        forall|pairs: Vec<(NodeId, ChatName)>| #[trigger]
            call_ensures(candidates, (&members, count), pairs) ==> {
                &&& pairs@ == candidates_of(members@, count as nat)
                &&& pairs@.contains((peer, chat)) <==> close_to(members@, count as int, peer, chat)
            },
{
    lemma_close_to(members@, count as nat, peer, chat);
}

/// The chats that ride along are those paired with the node of the profile, in order.
pub proof fn lemma_riding_along(pairs: Seq<(NodeId, ChatName)>, profile_peer: NodeId)
    ensures
        riding_along(pairs, profile_peer) == pairs.filter(
            |pair: (NodeId, ChatName)| pair.0 == profile_peer,
        ).map_values(|pair: (NodeId, ChatName)| Topic::Chat(pair.1)),
    decreases pairs.len(),
{
    reveal(Seq::filter);
    let of_profile = |pair: (NodeId, ChatName)| pair.0 == profile_peer;
    let as_topic = |pair: (NodeId, ChatName)| Topic::Chat(pair.1);
    if pairs.len() > 0 {
        lemma_riding_along(pairs.drop_last(), profile_peer);
        let before = pairs.drop_last().filter(of_profile);
        assert(before.push(pairs.last()).map_values(as_topic) =~= before.map_values(as_topic).push(
            Topic::Chat(pairs.last().1),
        ));
    } else {
        assert(riding_along(pairs, profile_peer) =~= pairs.filter(of_profile).map_values(as_topic));
    }
}

/// `pairs` names `sooner` before it first names `later`.
pub open spec fn node_first(pairs: Seq<(NodeId, ChatName)>, sooner: NodeId, later: NodeId) -> bool {
    exists|a: int|
        {
            &&& 0 <= a < pairs.len()
            &&& (#[trigger] pairs[a]).0 == sooner
            &&& forall|b: int| 0 <= b <= a ==> (#[trigger] pairs[b]).0 != later
        }
}

/// `pairs` names `peer` with `sooner` before it first names it with `later`.
pub open spec fn chat_first(
    pairs: Seq<(NodeId, ChatName)>,
    peer: NodeId,
    sooner: ChatName,
    later: ChatName,
) -> bool {
    exists|a: int|
        {
            &&& 0 <= a < pairs.len()
            &&& #[trigger] pairs[a] == (peer, sooner)
            &&& forall|b: int| 0 <= b <= a ==> #[trigger] pairs[b] != (peer, later)
        }
}

proof fn lemma_order_kept(
    pairs: Seq<(NodeId, ChatName)>,
    p: NodeId,
    q: NodeId,
    c: ChatName,
    d: ChatName,
)
    requires
        pairs.len() > 0,
    ensures
        node_first(pairs.drop_last(), p, q) ==> node_first(pairs, p, q),
        chat_first(pairs.drop_last(), p, c, d) ==> chat_first(pairs, p, c, d),
{
    let shorter = pairs.drop_last();
    if node_first(shorter, p, q) {
        let a = choose|a: int|
            {
                &&& 0 <= a < shorter.len()
                &&& (#[trigger] shorter[a]).0 == p
                &&& forall|b: int| 0 <= b <= a ==> (#[trigger] shorter[b]).0 != q
            };
        assert(pairs[a].0 == p);
        assert forall|b: int| 0 <= b <= a implies (#[trigger] pairs[b]).0 != q by {
            assert(shorter[b].0 != q);
        }
    }
    if chat_first(shorter, p, c, d) {
        let a = choose|a: int|
            {
                &&& 0 <= a < shorter.len()
                &&& #[trigger] shorter[a] == (p, c)
                &&& forall|b: int| 0 <= b <= a ==> #[trigger] shorter[b] != (p, d)
            };
        assert(pairs[a] == (p, c));
        assert forall|b: int| 0 <= b <= a implies #[trigger] pairs[b] != (p, d) by {
            assert(shorter[b] != (p, d));
        }
    }
}

/// The other nodes stand in the order in which they first come up, and so do the
/// chats of each.
pub proof fn lemma_grouped_in_order(pairs: Seq<(NodeId, ChatName)>, profile_peer: NodeId)
    ensures
        forall|i: int, j: int|
            0 <= i < j < grouped(pairs, profile_peer).len() ==> node_first(
                pairs,
                (#[trigger] grouped(pairs, profile_peer)[i]).0,
                (#[trigger] grouped(pairs, profile_peer)[j]).0,
            ),
        forall|i: int, x: int, y: int|
            0 <= i < grouped(pairs, profile_peer).len() && 0 <= x < y < grouped(
                pairs,
                profile_peer,
            )[i].1.len() ==> chat_first(
                pairs,
                grouped(pairs, profile_peer)[i].0,
                #[trigger] grouped(pairs, profile_peer)[i].1[x],
                #[trigger] grouped(pairs, profile_peer)[i].1[y],
            ),
    decreases pairs.len(),
{
    if pairs.len() > 0 {
        let shorter = pairs.drop_last();
        let (peer, chat) = pairs.last();
        let was = grouped(shorter, profile_peer);
        let now = grouped(pairs, profile_peer);
        lemma_grouped_in_order(shorter, profile_peer);
        lemma_place_of(was, peer, 0);
        assert(listed_once(was)) by {
            lemma_split_is_faithful(shorter, profile_peer, peer, chat);
        }
        assert forall|i: int, j: int| 0 <= i < j < now.len() implies node_first(
            pairs,
            (#[trigger] now[i]).0,
            (#[trigger] now[j]).0,
        ) by {
            if j < was.len() {
                assert(was[i].0 == now[i].0 && was[j].0 == now[j].0);
                assert(node_first(shorter, was[i].0, was[j].0));
                lemma_order_kept(pairs, was[i].0, was[j].0, chat, chat);
            } else {
                assert(now[j] == (peer, seq![chat]));
                lemma_listed_comes_up(shorter, profile_peer, i, 0);
                let first = (was[i].0, was[i].1[0]);
                let a = choose|a: int| 0 <= a < shorter.len() && shorter[a] == first;
                assert(pairs[a].0 == now[i].0);
                assert forall|b: int| 0 <= b <= a implies (#[trigger] pairs[b]).0 != peer by {
                    if pairs[b].0 == peer {
                        assert(shorter[b] == (peer, pairs[b].1));
                        assert(shorter.contains((peer, pairs[b].1)));
                        lemma_split_is_faithful(shorter, profile_peer, peer, pairs[b].1);
                    }
                }
            }
        }
        assert forall|i: int, x: int, y: int|
            0 <= i < now.len() && 0 <= x < y < now[i].1.len() implies chat_first(
            pairs,
            now[i].0,
            #[trigger] now[i].1[x],
            #[trigger] now[i].1[y],
        ) by {
            assert(i < was.len());
            assert(was[i].0 == now[i].0);
            if y < was[i].1.len() {
                assert(chat_first(shorter, was[i].0, was[i].1[x], was[i].1[y]));
                lemma_order_kept(pairs, was[i].0, peer, was[i].1[x], was[i].1[y]);
            } else {
                lemma_listed_comes_up(shorter, profile_peer, i, x);
                let sooner = (was[i].0, was[i].1[x]);
                let a = choose|a: int| 0 <= a < shorter.len() && shorter[a] == sooner;
                assert(pairs[a] == (peer, now[i].1[x]));
                assert forall|b: int| 0 <= b <= a implies #[trigger] pairs[b] != (peer, chat) by {
                    if pairs[b] == (peer, chat) {
                        assert(shorter[b] == (peer, chat));
                        assert(shorter.contains((peer, chat)));
                        lemma_split_is_faithful(shorter, profile_peer, peer, chat);
                        let k = choose|k: int|
                            0 <= k < was.len() && (#[trigger] was[k]).0 == peer
                                && was[k].1.contains(chat);
                        assert(k == i);
                    }
                }
            }
        }
    }
}

proof fn lemma_listed_comes_up(
    pairs: Seq<(NodeId, ChatName)>,
    profile_peer: NodeId,
    i: int,
    x: int,
)
    requires
        0 <= i < grouped(pairs, profile_peer).len(),
        0 <= x < grouped(pairs, profile_peer)[i].1.len() || x == 0,
    ensures
        grouped(pairs, profile_peer)[i].1.len() > 0,
        pairs.contains((grouped(pairs, profile_peer)[i].0, grouped(pairs, profile_peer)[i].1[x])),
{
    lemma_grouped_not_empty(pairs, profile_peer);
    let node = grouped(pairs, profile_peer)[i];
    lemma_split_is_faithful(pairs, profile_peer, node.0, node.1[x]);
    assert(node.1.contains(node.1[x]));
    assert(lists(grouped(pairs, profile_peer), node.0, node.1[x]));
}

proof fn lemma_grouped_not_empty(pairs: Seq<(NodeId, ChatName)>, profile_peer: NodeId)
    ensures
        forall|i: int|
            0 <= i < grouped(pairs, profile_peer).len() ==> (#[trigger] grouped(
                pairs,
                profile_peer,
            )[i]).1.len() > 0,
    decreases pairs.len(),
{
    if pairs.len() > 0 {
        lemma_grouped_not_empty(pairs.drop_last(), profile_peer);
        lemma_place_of(grouped(pairs.drop_last(), profile_peer), pairs.last().0, 0);
    }
}

/// Splitting loses nothing and makes nothing up: what rides along are the chats of
/// the node of the profile, in order, and every other node is listed once, with each
/// of its chats once, in the order in which they come up.
pub proof fn lemma_split_in_order(
    pairs: Vec<(NodeId, ChatName)>,
    profile_peer: NodeId,
    peer: NodeId,
    chat: ChatName,
)
    ensures
        forall|parts: (Vec<Topic>, Vec<Served>)| #[trigger]
            call_ensures(split, (&pairs, profile_peer), parts) ==> {
                &&& parts.0@ == pairs@.filter(
                    |pair: (NodeId, ChatName)| pair.0 == profile_peer,
                ).map_values(|pair: (NodeId, ChatName)| Topic::Chat(pair.1))
                &&& (exists|i: int|
                    0 <= i < parts.1@.len() && (#[trigger] parts.1@[i]).0 == peer
                        && parts.1@[i].1@.contains(chat)) <==> peer != profile_peer
                    && pairs@.contains((peer, chat))
                &&& forall|i: int, j: int|
                    0 <= i < j < parts.1@.len() ==> (#[trigger] parts.1@[i]).0 != (
                    #[trigger] parts.1@[j]).0 && node_first(pairs@, parts.1@[i].0, parts.1@[j].0)
                &&& forall|i: int|
                    0 <= i < parts.1@.len() ==> (#[trigger] parts.1@[i]).1@.no_duplicates()
                &&& forall|i: int, x: int, y: int|
                    0 <= i < parts.1@.len() && 0 <= x < y < parts.1@[i].1@.len() ==> chat_first(
                        pairs@,
                        parts.1@[i].0,
                        #[trigger] parts.1@[i].1@[x],
                        #[trigger] parts.1@[i].1@[y],
                    )
            },
{
    lemma_riding_along(pairs@, profile_peer);
    lemma_split_is_faithful(pairs@, profile_peer, peer, chat);
    lemma_grouped_in_order(pairs@, profile_peer);
    assert forall|parts: (Vec<Topic>, Vec<Served>)| #[trigger]
        call_ensures(split, (&pairs, profile_peer), parts) implies {
        &&& (exists|i: int|
            0 <= i < parts.1@.len() && (#[trigger] parts.1@[i]).0 == peer
                && parts.1@[i].1@.contains(chat)) <==> peer != profile_peer && pairs@.contains(
            (peer, chat),
        )
        &&& forall|i: int, j: int|
            0 <= i < j < parts.1@.len() ==> (#[trigger] parts.1@[i]).0 != (#[trigger] parts.1@[j]).0
                && node_first(pairs@, parts.1@[i].0, parts.1@[j].0)
        &&& forall|i: int|
            0 <= i < parts.1@.len() ==> (#[trigger] parts.1@[i]).1@.no_duplicates()
        &&& forall|i: int, x: int, y: int|
            0 <= i < parts.1@.len() && 0 <= x < y < parts.1@[i].1@.len() ==> chat_first(
                pairs@,
                parts.1@[i].0,
                #[trigger] parts.1@[i].1@[x],
                #[trigger] parts.1@[i].1@[y],
            )
    } by {
        let nodes = grouped(pairs@, profile_peer);
        assert forall|i: int| 0 <= i < parts.1@.len() implies nodes[i] == (
            (#[trigger] parts.1@[i]).0,
            parts.1@[i].1@,
        ) by {
            assert(model(parts.1@)[i] == (parts.1@[i].0, parts.1@[i].1@));
        }
        assert(nodes.len() == parts.1@.len());
        if lists(nodes, peer, chat) {
            let i = choose|i: int|
                0 <= i < nodes.len() && (#[trigger] nodes[i]).0 == peer && nodes[i].1.contains(
                    chat,
                );
            assert(parts.1@[i].0 == peer);
        }
        if exists|i: int|
            0 <= i < parts.1@.len() && (#[trigger] parts.1@[i]).0 == peer
                && parts.1@[i].1@.contains(chat) {
            let i = choose|i: int|
                0 <= i < parts.1@.len() && (#[trigger] parts.1@[i]).0 == peer
                    && parts.1@[i].1@.contains(chat);
            assert(nodes[i].0 == peer && nodes[i].1.contains(chat));
        }
        assert forall|i: int, j: int| 0 <= i < j < parts.1@.len() implies (
        #[trigger] parts.1@[i]).0 != (#[trigger] parts.1@[j]).0 && node_first(
            pairs@,
            parts.1@[i].0,
            parts.1@[j].0,
        ) by {
            assert(node_first(pairs@, nodes[i].0, nodes[j].0));
        }
        assert forall|i: int, x: int, y: int|
            0 <= i < parts.1@.len() && 0 <= x < y < parts.1@[i].1@.len() implies chat_first(
            pairs@,
            parts.1@[i].0,
            #[trigger] parts.1@[i].1@[x],
            #[trigger] parts.1@[i].1@[y],
        ) by {
            assert(chat_first(pairs@, nodes[i].0, nodes[i].1[x], nodes[i].1[y]));
        }
    }
}

/// Sorting is stable: nodes with as many chats keep their order.
pub proof fn lemma_by_size_is_stable(nodes: Seq<(NodeId, Seq<ChatName>)>, size: nat)
    ensures
        by_size(nodes).filter(|node: (NodeId, Seq<ChatName>)| node.1.len() == size)
            == nodes.filter(|node: (NodeId, Seq<ChatName>)| node.1.len() == size),
    decreases nodes.len(),
{
    reveal(Seq::filter);
    let as_many = |node: (NodeId, Seq<ChatName>)| node.1.len() == size;
    if nodes.len() > 0 {
        let shorter = nodes.drop_last();
        let node = nodes.last();
        let order = by_size(shorter);
        lemma_by_size_is_stable(shorter, size);
        lemma_by_size_sorts(shorter);
        lemma_slot(order, node.1.len(), order.len() as int);
        let at = slot(order, node.1.len(), order.len() as int);
        let low = order.take(at);
        let high = order.skip(at);
        assert(order =~= low + high);
        assert(by_size(nodes) =~= low + seq![node] + high);
        Seq::filter_distributes_over_add(low, high, as_many);
        Seq::filter_distributes_over_add(low, seq![node], as_many);
        Seq::filter_distributes_over_add(low + seq![node], high, as_many);
        assert(seq![node].drop_last() =~= Seq::empty());
        assert(seq![node].filter(as_many) =~= if node.1.len() == size {
            seq![node]
        } else {
            Seq::empty()
        }) by {
            assert(seq![node].drop_last().filter(as_many).len() == 0);
            assert(seq![node].last() == node);
        }
        if node.1.len() == size {
            lemma_none_as_many(high, size);
            assert(order.filter(as_many) =~= low.filter(as_many));
            assert(by_size(nodes).filter(as_many) =~= shorter.filter(as_many).push(node));
        } else {
            assert(by_size(nodes).filter(as_many) =~= shorter.filter(as_many));
        }
    }
}

proof fn lemma_none_as_many(nodes: Seq<(NodeId, Seq<ChatName>)>, size: nat)
    requires
        forall|i: int| 0 <= i < nodes.len() ==> (#[trigger] nodes[i]).1.len() != size,
    ensures
        nodes.filter(|node: (NodeId, Seq<ChatName>)| node.1.len() == size).len() == 0,
    decreases nodes.len(),
{
    reveal(Seq::filter);
    if nodes.len() > 0 {
        assert(nodes[nodes.len() - 1].1.len() != size);
        lemma_none_as_many(nodes.drop_last(), size);
    }
}

/// One of the first `upto` nodes of the plan is asked for `chat`.
pub open spec fn asked_before(
    plan: Seq<(NodeId, Seq<ChatName>)>,
    upto: int,
    chat: ChatName,
) -> bool {
    exists|i: int| 0 <= i < upto && (#[trigger] plan[i]).1.contains(chat)
}

/// `all` holds `sooner` at some place in front of one at which it holds `later`.
pub open spec fn stands_before(all: Seq<ChatName>, sooner: ChatName, later: ChatName) -> bool {
    exists|a: int, b: int|
        0 <= a < b < all.len() && #[trigger] all[a] == sooner && #[trigger] all[b] == later
}

/// What stands in `some` stands in `all` in the same order.
pub open spec fn keeps_order(some: Seq<ChatName>, all: Seq<ChatName>) -> bool {
    forall|x: int, y: int|
        0 <= x < y < some.len() ==> stands_before(all, #[trigger] some[x], #[trigger] some[y])
}

/// Node `i` of the plan is one of `nodes`. It is asked for chats that it serves, in
/// their order. It and those before it are asked for all that it serves. Those before
/// it are asked for all that any node with more chats serves, and any with as many
/// that is listed behind it.
pub open spec fn comes_in_turn(
    plan: Seq<(NodeId, Seq<ChatName>)>,
    i: int,
    nodes: Seq<(NodeId, Seq<ChatName>)>,
) -> bool {
    exists|j: int|
        {
            &&& 0 <= j < nodes.len()
            &&& (#[trigger] nodes[j]).0 == plan[i].0
            &&& forall|chat: ChatName| #[trigger]
                plan[i].1.contains(chat) ==> nodes[j].1.contains(chat)
            &&& keeps_order(plan[i].1, nodes[j].1)
            &&& forall|chat: ChatName| #[trigger]
                nodes[j].1.contains(chat) ==> asked_before(plan, i + 1, chat)
            &&& forall|m: int, chat: ChatName|
                0 <= m < nodes.len() && (nodes[m].1.len() > nodes[j].1.len() || nodes[m].1.len()
                    == nodes[j].1.len() && m > j) && #[trigger] nodes[m].1.contains(chat)
                    ==> asked_before(plan, i, chat)
        }
}

/// Chats that are new stay in order.
pub proof fn lemma_unseen_in_order(chats: Seq<ChatName>, seen: Seq<ChatName>)
    ensures
        keeps_order(unseen(chats, seen), chats),
    decreases chats.len(),
{
    if chats.len() > 0 {
        let shorter = chats.drop_last();
        let last = chats.len() - 1;
        let was = unseen(shorter, seen);
        let now = unseen(chats, seen);
        lemma_unseen_in_order(shorter, seen);
        lemma_unseen(shorter, seen);
        assert forall|x: int, y: int| 0 <= x < y < now.len() implies stands_before(
            chats,
            #[trigger] now[x],
            #[trigger] now[y],
        ) by {
            if y < was.len() {
                assert(stands_before(shorter, was[x], was[y]));
                let (a, b) = choose|a: int, b: int|
                    0 <= a < b < shorter.len() && #[trigger] shorter[a] == was[x]
                        && #[trigger] shorter[b] == was[y];
                assert(chats[a] == now[x] && chats[b] == now[y]);
            } else {
                assert(was.contains(was[x]));
                assert(shorter.contains(was[x]));
                let a = choose|a: int| 0 <= a < shorter.len() && shorter[a] == was[x];
                assert(chats[a] == now[x] && chats[last] == now[y]);
            }
        }
    }
}

/// Of two nodes with as many chats, the one listed behind the other stays behind it.
proof fn lemma_stays_behind(nodes: Seq<(NodeId, Seq<ChatName>)>, j: int, m: int) -> (at: (int, int))
    requires
        0 <= j < m < nodes.len(),
        nodes[j].1.len() == nodes[m].1.len(),
    ensures
        0 <= at.0 < at.1 < by_size(nodes).len(),
        by_size(nodes)[at.0] == nodes[j],
        by_size(nodes)[at.1] == nodes[m],
    decreases nodes.len(),
{
    let shorter = nodes.drop_last();
    let node = nodes.last();
    let order = by_size(shorter);
    lemma_by_size_sorts(shorter);
    lemma_by_size_same_nodes(shorter);
    lemma_slot(order, node.1.len(), order.len() as int);
    let slot_at = slot(order, node.1.len(), order.len() as int);
    if m == nodes.len() - 1 {
        assert(shorter[j] == nodes[j]);
        assert(shorter.contains(nodes[j]));
        assert(order.contains(nodes[j]));
        let p = choose|p: int| 0 <= p < order.len() && order[p] == nodes[j];
        assert(p < slot_at);
        (p, slot_at)
    } else {
        let (p, q) = lemma_stays_behind(shorter, j, m);
        let moved = |k: int|
            if k < slot_at {
                k
            } else {
                k + 1
            };
        assert(by_size(nodes)[moved(p)] == order[p]);
        assert(by_size(nodes)[moved(q)] == order[q]);
        (moved(p), moved(q))
    }
}

/// Sorting lists no node twice.
proof fn lemma_by_size_listed_once(nodes: Seq<(NodeId, Seq<ChatName>)>)
    requires
        forall|i: int, j: int|
            0 <= i < j < nodes.len() ==> (#[trigger] nodes[i]).0 != (#[trigger] nodes[j]).0,
    ensures
        forall|i: int, j: int|
            0 <= i < j < by_size(nodes).len() ==> (#[trigger] by_size(nodes)[i]).0 != (
            #[trigger] by_size(nodes)[j]).0,
    decreases nodes.len(),
{
    if nodes.len() > 0 {
        let shorter = nodes.drop_last();
        let node = nodes.last();
        let order = by_size(shorter);
        lemma_by_size_listed_once(shorter);
        lemma_by_size_sorts(shorter);
        lemma_by_size_same_nodes(shorter);
        lemma_slot(order, node.1.len(), order.len() as int);
        assert forall|i: int| 0 <= i < order.len() implies (#[trigger] order[i]).0 != node.0 by {
            assert(order.contains(order[i]));
            let k = choose|k: int| 0 <= k < shorter.len() && shorter[k] == order[i];
            assert(nodes[k] == order[i]);
        }
    }
}

/// As `comes_in_turn`, for the nodes that are taken from the end of `stack` when
/// `seen` has been seen.
spec fn taken_in_turn(
    plan: Seq<(NodeId, Seq<ChatName>)>,
    i: int,
    stack: Seq<(NodeId, Seq<ChatName>)>,
    seen: Seq<ChatName>,
    j: int,
) -> bool {
    &&& 0 <= j < stack.len()
    &&& stack[j].0 == plan[i].0
    &&& forall|chat: ChatName| #[trigger] plan[i].1.contains(chat) ==> stack[j].1.contains(chat)
    &&& keeps_order(plan[i].1, stack[j].1)
    &&& forall|chat: ChatName| #[trigger]
        stack[j].1.contains(chat) ==> seen.contains(chat) || asked_before(plan, i + 1, chat)
    &&& forall|m: int, chat: ChatName|
        j < m < stack.len() && #[trigger] stack[m].1.contains(chat) ==> seen.contains(chat)
            || asked_before(plan, i, chat)
}

proof fn lemma_taken_in_turn(
    stack: Seq<(NodeId, Seq<ChatName>)>,
    seen: Seq<ChatName>,
    total: nat,
    i: int,
) -> (j: int)
    requires
        0 <= i < cover(stack, seen, total).len(),
    ensures
        taken_in_turn(cover(stack, seen, total), i, stack, seen, j),
    decreases stack.len(),
{
    let plan = cover(stack, seen, total);
    let (peer, of_node) = stack.last();
    let last = stack.len() - 1;
    let fresh = unseen(of_node, seen);
    let now = seen + fresh;
    let below = stack.drop_last();
    let rest = cover(below, now, total);
    lemma_unseen(of_node, seen);
    lemma_unseen_in_order(of_node, seen);
    let shift: int = if fresh.len() == 0 {
        0
    } else {
        1
    };
    assert forall|chat: ChatName| #[trigger] now.contains(chat) implies seen.contains(chat)
        || fresh.contains(chat) by {
        let k = choose|k: int| 0 <= k < now.len() && now[k] == chat;
        if k < seen.len() {
            assert(seen[k] == chat);
        } else {
            assert(fresh[k - seen.len()] == chat);
        }
    }
    assert forall|chat: ChatName| #[trigger] fresh.contains(chat) implies shift == 1
        && plan[0].1.contains(chat) by {}
    if i < shift {
        assert forall|chat: ChatName| #[trigger] stack[last].1.contains(chat) implies seen.contains(
            chat,
        ) || asked_before(plan, i + 1, chat) by {
            if !seen.contains(chat) {
                assert(plan[0].1.contains(chat));
            }
        }
        last
    } else {
        let j = lemma_taken_in_turn(below, now, total, i - shift);
        assert(plan[i] == rest[i - shift]);
        assert forall|upto: int, chat: ChatName|
            shift <= upto <= plan.len() && #[trigger] asked_before(
                rest,
                upto - shift,
                chat,
            ) implies asked_before(plan, upto, chat) by {
            let k = choose|k: int| 0 <= k < upto - shift && (#[trigger] rest[k]).1.contains(chat);
            assert(plan[k + shift].1.contains(chat));
        }
        assert forall|chat: ChatName| #[trigger] stack[j].1.contains(chat) implies seen.contains(
            chat,
        ) || asked_before(plan, i + 1, chat) by {
            assert(below[j].1.contains(chat));
            if !seen.contains(chat) {
                if now.contains(chat) {
                    assert(plan[0].1.contains(chat));
                } else {
                    assert(asked_before(rest, i + 1 - shift, chat));
                }
            }
        }
        assert forall|m: int, chat: ChatName|
            j < m < stack.len() && #[trigger] stack[m].1.contains(chat) implies seen.contains(chat)
            || asked_before(plan, i, chat) by {
            if !seen.contains(chat) {
                if m < last {
                    assert(below[m].1.contains(chat));
                }
                if m == last || now.contains(chat) {
                    assert(fresh.contains(chat));
                    assert(plan[0].1.contains(chat));
                } else {
                    assert(asked_before(rest, i - shift, chat));
                }
            }
        }
        j
    }
}

/// Nodes with more chats come first in the plan, of those with as many the one listed
/// last. Each is asked for all that none before it is, in order, and none is taken
/// whose chats are all asked of others before.
pub proof fn lemma_larger_nodes_come_first(nodes: Seq<(NodeId, Seq<ChatName>)>, total: nat, i: int)
    requires
        forall|a: int, b: int|
            0 <= a < b < nodes.len() ==> (#[trigger] nodes[a]).0 != (#[trigger] nodes[b]).0,
        0 <= i < cover(by_size(nodes), Seq::empty(), total).len(),
    ensures
        comes_in_turn(cover(by_size(nodes), Seq::empty(), total), i, nodes),
{
    let order = by_size(nodes);
    let none = Seq::<ChatName>::empty();
    let plan = cover(order, none, total);
    let at = lemma_taken_in_turn(order, none, total, i);
    lemma_by_size_sorts(nodes);
    lemma_by_size_same_nodes(nodes);
    assert(order.contains(order[at]));
    let j = choose|j: int| 0 <= j < nodes.len() && nodes[j] == order[at];
    lemma_by_size_listed_once(nodes);
    assert forall|m: int, chat: ChatName|
        0 <= m < nodes.len() && (nodes[m].1.len() > nodes[j].1.len() || nodes[m].1.len()
            == nodes[j].1.len() && m > j) && #[trigger] nodes[m].1.contains(
            chat,
        ) implies asked_before(plan, i, chat) by {
        assert(nodes.contains(nodes[m]));
        assert(order.contains(nodes[m]));
        let k = if nodes[m].1.len() == nodes[j].1.len() {
            let (p, q) = lemma_stays_behind(nodes, j, m);
            assert(order[p].0 == order[at].0);
            assert(p == at);
            q
        } else {
            choose|k: int| 0 <= k < order.len() && order[k] == nodes[m]
        };
        assert(k > at);
        assert(order[k].1.contains(chat));
        assert(!none.contains(chat));
    }
    assert(nodes[j].0 == plan[i].0);
}

/// The plan asks exactly one node for every chat, one that serves it, asks nobody for
/// anything else, and takes nodes with more chats first.
pub proof fn lemma_plan_is_right(nodes: Vec<Served>, chats: Vec<ChatName>)
    requires
        forall|a: int, b: int|
            0 <= a < b < nodes@.len() ==> (#[trigger] nodes@[a]).0 != (#[trigger] nodes@[b]).0,
        chats@.no_duplicates(),
        within(model(nodes@), chats@),
        reachable(chats@, model(nodes@)),
    ensures
        forall|plan: Vec<Served>| #[trigger]
            call_ensures(plan_connections, (nodes, &chats), plan) ==> {
                &&& forall|chat: ChatName|
                    (exists|i: int|
                        0 <= i < plan@.len() && (#[trigger] plan@[i]).1@.contains(chat))
                        <==> #[trigger] chats@.contains(chat)
                &&& forall|i: int, j: int, chat: ChatName|
                    0 <= i < plan@.len() && 0 <= j < plan@.len()
                        && #[trigger] plan@[i].1@.contains(chat)
                        && #[trigger] plan@[j].1@.contains(chat) ==> i == j
                &&& forall|i: int|
                    0 <= i < plan@.len() ==> (#[trigger] plan@[i]).1@.len() > 0
                        && plan@[i].1@.no_duplicates() && comes_in_turn(
                        model(plan@),
                        i,
                        model(nodes@),
                    )
            },
{
    let stack = model(nodes@);
    lemma_plan_serves_every_chat(stack, chats@);
    assert forall|a: int, b: int| 0 <= a < b < stack.len() implies (#[trigger] stack[a]).0 != (
    #[trigger] stack[b]).0 by {
        assert(nodes@[a].0 != nodes@[b].0);
    }
    assert forall|plan: Vec<Served>| #[trigger]
        call_ensures(plan_connections, (nodes, &chats), plan) implies {
        &&& forall|chat: ChatName|
            (exists|i: int| 0 <= i < plan@.len() && (#[trigger] plan@[i]).1@.contains(chat))
                <==> #[trigger] chats@.contains(chat)
        &&& forall|i: int, j: int, chat: ChatName|
            0 <= i < plan@.len() && 0 <= j < plan@.len() && #[trigger] plan@[i].1@.contains(chat)
                && #[trigger] plan@[j].1@.contains(chat) ==> i == j
        &&& forall|i: int|
            0 <= i < plan@.len() ==> (#[trigger] plan@[i]).1@.len() > 0
                && plan@[i].1@.no_duplicates() && comes_in_turn(model(plan@), i, model(nodes@))
    } by {
        let parts = model(plan@);
        assert forall|i: int| 0 <= i < plan@.len() implies parts[i] == (
            (#[trigger] plan@[i]).0,
            plan@[i].1@,
        ) by {}
        assert forall|chat: ChatName|
            (exists|i: int| 0 <= i < plan@.len() && (#[trigger] plan@[i]).1@.contains(chat))
                <==> #[trigger] chats@.contains(chat) by {
            assert(planned(parts, chat) <==> chats@.contains(chat));
            if planned(parts, chat) {
                let i = choose|i: int|
                    0 <= i < parts.len() && (#[trigger] parts[i]).1.contains(chat);
                assert(plan@[i].1@.contains(chat));
            }
            if exists|i: int| 0 <= i < plan@.len() && (#[trigger] plan@[i]).1@.contains(chat) {
                let i = choose|i: int|
                    0 <= i < plan@.len() && (#[trigger] plan@[i]).1@.contains(chat);
                assert(parts[i].1.contains(chat));
            }
        }
        assert forall|i: int, j: int, chat: ChatName|
            0 <= i < plan@.len() && 0 <= j < plan@.len() && #[trigger] plan@[i].1@.contains(chat)
                && #[trigger] plan@[j].1@.contains(chat) implies i == j by {
            if i < j {
                assert(disjoint_chats(parts[i].1, parts[j].1));
            }
            if j < i {
                assert(disjoint_chats(parts[j].1, parts[i].1));
            }
        }
        assert forall|i: int| 0 <= i < plan@.len() implies (#[trigger] plan@[i]).1@.len() > 0
            && plan@[i].1@.no_duplicates() && comes_in_turn(model(plan@), i, model(nodes@)) by {
            assert(parts[i].1.len() > 0 && parts[i].1.no_duplicates());
            lemma_larger_nodes_come_first(stack, chats@.len(), i);
        }
    }
}

/// The plan asks nodes for chats that they are close to, each for at least one, never
/// the node of the profile, and every chat of exactly one of them. What rides along are
/// the chats that the node of the profile is close to.
pub open spec fn reaches_members(
    members: Seq<(ChatName, Vec<NodeId>)>,
    count: int,
    profile_peer: NodeId,
    riding: Seq<Topic>,
    plan: Seq<Served>,
) -> bool {
    &&& forall|i: int|
        0 <= i < plan.len() ==> (#[trigger] plan[i]).0 != profile_peer && plan[i].1@.len() > 0
    &&& forall|i: int, chat: ChatName|
        0 <= i < plan.len() && #[trigger] plan[i].1@.contains(chat) ==> close_to(
            members,
            count,
            plan[i].0,
            chat,
        )
    &&& forall|i: int, j: int, chat: ChatName|
        0 <= i < plan.len() && 0 <= j < plan.len() && #[trigger] plan[i].1@.contains(chat)
            && #[trigger] plan[j].1@.contains(chat) ==> i == j
    &&& forall|k: int|
        0 <= k < members.len() ==> exists|i: int|
            0 <= i < plan.len() && (#[trigger] plan[i]).1@.contains((#[trigger] members[k]).0)
    &&& forall|topic: Topic| #[trigger]
        riding.contains(topic) <==> (topic matches Topic::Chat(chat) && close_to(
            members,
            count,
            profile_peer,
            chat,
        ))
}

/// A starting client is served every chat once, by a node close to it.
pub proof fn lemma_connections_reach_members(
    members: Vec<(ChatName, Vec<NodeId>)>,
    count: usize,
    profile_peer: NodeId,
)
    requires
        forall|a: int, b: int|
            0 <= a < b < members@.len() ==> (#[trigger] members@[a]).0 != (
            #[trigger] members@[b]).0,
        forall|a: int|
            0 <= a < members@.len() ==> exists|i: int|
                {
                    &&& 0 <= i < (#[trigger] members@[a]).1@.len()
                    &&& i < count
                    &&& #[trigger] members@[a].1@[i] != profile_peer
                },
    ensures
        forall|parts: (Vec<Topic>, Vec<Served>)| #[trigger]
            call_ensures(connections, (&members, count, profile_peer), parts) ==> reaches_members(
                members@,
                count as int,
                profile_peer,
                parts.0@,
                parts.1@,
            ),
{
    let n = count as nat;
    let nodes = other_nodes(members@, n, profile_peer);
    let pairs = candidates_of(members@, n);
    let chats = names(members@);
    assert forall|a: int| 0 <= a < members@.len() implies #[trigger] has_other_member(
        members@,
        n,
        a,
        profile_peer,
    ) by {
        assert(members@[a].1@.len() >= 0);
        let i = choose|i: int|
            {
                &&& 0 <= i < members@[a].1@.len()
                &&& i < count
                &&& #[trigger] members@[a].1@[i] != profile_peer
            };
        lemma_is_member(members@, n, a, members@[a].1@[i]);
        assert(is_member(members@, n, a, members@[a].1@[i]));
    }
    assert forall|a: int, b: int|
        0 <= a < chats.len() && 0 <= b < chats.len() && a != b implies chats[a] != chats[b] by {
        assert(chats[a] == members@[a].0 && chats[b] == members@[b].0);
    }
    lemma_other_nodes_serve_the_chats(members@, n, profile_peer);
    lemma_plan_serves_every_chat(nodes, chats);
    lemma_riding_along(pairs, profile_peer);
    assert forall|parts: (Vec<Topic>, Vec<Served>)| #[trigger]
        call_ensures(connections, (&members, count, profile_peer), parts) implies reaches_members(
        members@,
        count as int,
        profile_peer,
        parts.0@,
        parts.1@,
    ) by {
        let riding = parts.0@;
        let plan = model(parts.1@);
        assert forall|i: int| 0 <= i < parts.1@.len() implies plan[i] == (
            (#[trigger] parts.1@[i]).0,
            parts.1@[i].1@,
        ) by {}
        assert forall|i: int, chat: ChatName|
            0 <= i < parts.1@.len() && #[trigger] parts.1@[i].1@.contains(
                chat,
            ) implies parts.1@[i].0 != profile_peer && close_to(
            members@,
            count as int,
            parts.1@[i].0,
            chat,
        ) by {
            assert(takes_part(plan[i], nodes));
            let j = choose|j: int|
                {
                    &&& 0 <= j < nodes.len()
                    &&& (#[trigger] nodes[j]).0 == plan[i].0
                    &&& forall|chat: ChatName| #[trigger]
                        plan[i].1.contains(chat) ==> nodes[j].1.contains(chat)
                };
            assert(lists(nodes, plan[i].0, chat));
            lemma_split_is_faithful(pairs, profile_peer, plan[i].0, chat);
            lemma_close_to(members@, n, plan[i].0, chat);
        }
        assert forall|i: int| 0 <= i < parts.1@.len() implies (#[trigger] parts.1@[i]).0
            != profile_peer && parts.1@[i].1@.len() > 0 by {
            assert(plan[i].1.len() > 0);
            assert(parts.1@[i].1@.contains(parts.1@[i].1@[0]));
        }
        assert forall|i: int, j: int, chat: ChatName|
            0 <= i < parts.1@.len() && 0 <= j < parts.1@.len()
                && #[trigger] parts.1@[i].1@.contains(chat)
                && #[trigger] parts.1@[j].1@.contains(chat) implies i == j by {
            if i < j {
                assert(disjoint_chats(plan[i].1, plan[j].1));
            }
            if j < i {
                assert(disjoint_chats(plan[j].1, plan[i].1));
            }
        }
        assert forall|k: int| 0 <= k < members@.len() implies exists|i: int|
            0 <= i < parts.1@.len() && (#[trigger] parts.1@[i]).1@.contains(
                (#[trigger] members@[k]).0,
            ) by {
            let chat = members@[k].0;
            assert(chats[k] == chat);
            assert(planned(plan, chat));
            let i = choose|i: int| 0 <= i < plan.len() && (#[trigger] plan[i]).1.contains(chat);
            assert(parts.1@[i].1@.contains(chat));
        }
        assert forall|topic: Topic| #[trigger]
            riding.contains(topic) <==> (topic matches Topic::Chat(chat) && close_to(
                members@,
                count as int,
                profile_peer,
                chat,
            )) by {
            if let Topic::Chat(chat) = topic {
                lemma_split_is_faithful(pairs, profile_peer, profile_peer, chat);
                lemma_close_to(members@, n, profile_peer, chat);
            } else if riding.contains(topic) {
                let i = choose|i: int| 0 <= i < riding.len() && riding[i] == topic;
                assert(riding[i] is Chat);
            }
        }
    }
}

} // verus!
