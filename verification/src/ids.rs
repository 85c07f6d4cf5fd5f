//! Identifiers shared by every part of the network, and how they compare.

use vstd::prelude::*;

verus! {

/// A 32 byte digest.
pub type Digest = [u8; 32];

/// Identity of a server node, the digest of its signing key.
pub type NodeId = [u8; 32];

/// Identity of a user, the digest of their signing key.
pub type Identity = [u8; 32];

/// A chat name of at most 32 bytes, padded with zero bytes.
pub type ChatName = [u8; 32];

/// Number of an onion path.
pub type PathId = u64;

/// Four bytes that pair a response with its request on one stream.
pub type CallId = [u8; 4];

/// Selects the remote procedure a request is for.
pub type Prefix = u8;

/// What a request is about: the profile of a user, or a chat.
#[derive(Clone, Copy, Debug)]
pub enum Topic {
    Profile(Identity),
    Chat(ChatName),
}

/// Whether two 32 byte identifiers are the same.
pub fn same_id(left: &[u8; 32], right: &[u8; 32]) -> (same: bool)
    ensures
        same == (*left == *right),
{
    let mut i: usize = 0;
    while i < 32
        invariant
            i <= 32,
            forall|k: int| 0 <= k < i ==> left@[k] == right@[k],
        decreases 32 - i,
    {
        if left[i] != right[i] {
            assert(left@[i as int] != right@[i as int]);
            return false;
        }
        i = i + 1;
    }
    assert(*left =~= *right);
    true
}

/// Whether two topics are the same.
pub fn same_topic(left: &Topic, right: &Topic) -> (same: bool)
    ensures
        same == (*left == *right),
{
    match (left, right) {
        (Topic::Profile(a), Topic::Profile(b)) => same_id(a, b),
        (Topic::Chat(a), Topic::Chat(b)) => same_id(a, b),
        _ => false,
    }
}

/// Whether `ids` holds `id`.
pub fn contains_id(ids: &Vec<[u8; 32]>, id: &[u8; 32]) -> (found: bool)
    ensures
        found == ids@.contains(*id),
{
    let mut i: usize = 0;
    while i < ids.len()
        invariant
            i <= ids.len(),
            forall|k: int| 0 <= k < i ==> ids@[k] != *id,
        decreases ids.len() - i,
    {
        if same_id(&ids[i], id) {
            assert(ids@[i as int] == *id);
            return true;
        }
        i = i + 1;
    }
    false
}

/// The first position at which `topics` holds `topic`.
pub fn position_of_topic(topics: &Vec<Topic>, topic: &Topic) -> (at: Option<usize>)
    ensures
        match at {
            Some(at) => {
                &&& at < topics@.len()
                &&& topics@[at as int] == *topic
                &&& forall|k: int| 0 <= k < at ==> topics@[k] != *topic
            },
            None => !topics@.contains(*topic),
        },
{
    let mut i: usize = 0;
    while i < topics.len()
        invariant
            i <= topics.len(),
            forall|k: int| 0 <= k < i ==> topics@[k] != *topic,
        decreases topics.len() - i,
    {
        if same_topic(&topics[i], topic) {
            return Some(i);
        }
        i = i + 1;
    }
    None
}

/// Two identifiers are the same exactly where all their bytes are, and two topics
/// where they are of one kind and have the same identifier.
pub proof fn lemma_identifiers_differ_in_a_byte(a: [u8; 32], b: [u8; 32])
    ensures
        forall|same: bool| #[trigger]
            call_ensures(same_id, (&a, &b), same) ==> (same <==> forall|i: int|
                0 <= i < 32 ==> #[trigger] a@[i] == b@[i]),
        forall|same: bool| #[trigger]
            call_ensures(same_topic, (&Topic::Profile(a), &Topic::Profile(b)), same) ==> (same
                <==> forall|i: int| 0 <= i < 32 ==> #[trigger] a@[i] == b@[i]),
        forall|same: bool| #[trigger]
            call_ensures(same_topic, (&Topic::Chat(a), &Topic::Chat(b)), same) ==> (same
                <==> forall|i: int| 0 <= i < 32 ==> #[trigger] a@[i] == b@[i]),
        forall|same: bool| #[trigger]
            call_ensures(same_topic, (&Topic::Profile(a), &Topic::Chat(b)), same) ==> !same,
        forall|same: bool| #[trigger]
            call_ensures(same_topic, (&Topic::Chat(a), &Topic::Profile(b)), same) ==> !same,
{
    if forall|i: int| 0 <= i < 32 ==> #[trigger] a@[i] == b@[i] {
        assert(a =~= b);
    }
}

/// An identifier is found exactly where it stands at some place, and a topic at the
/// first of its places.
pub proof fn lemma_found_where_it_stands(
    ids: Vec<[u8; 32]>,
    id: [u8; 32],
    topics: Vec<Topic>,
    topic: Topic,
)
    ensures
        forall|found: bool| #[trigger]
            call_ensures(contains_id, (&ids, &id), found) ==> (found <==> exists|i: int|
                0 <= i < ids@.len() && #[trigger] ids@[i] == id),
        forall|at: Option<usize>| #[trigger]
            call_ensures(position_of_topic, (&topics, &topic), at) ==> match at {
                Some(at) => at < topics@.len() && topics@[at as int] == topic && forall|k: int|
                    0 <= k < at ==> #[trigger] topics@[k] != topic,
                None => forall|k: int| 0 <= k < topics@.len() ==> #[trigger] topics@[k] != topic,
            },
{
    assert forall|at: Option<usize>| #[trigger]
        call_ensures(position_of_topic, (&topics, &topic), at) && at is None implies forall|k: int|
        0 <= k < topics@.len() ==> #[trigger] topics@[k] != topic by {
        assert forall|k: int| 0 <= k < topics@.len() implies #[trigger] topics@[k] != topic by {
            assert(!topics@.contains(topic));
        }
    }
}

} // verus!
