//! Choice of peers: one at random, or a route of three whose last hop is
//! known.

use crate::ids::{same_id, NodeId};
use vstd::prelude::*;

verus! {

/// Calls `rand::seq::IteratorRandom::choose` on the numbers below `n` with the
/// thread's generator. Which number comes out is left to chance; one comes out
/// wherever there is any.
#[verifier::external_body]
fn choose_below(n: usize) -> (pick: Option<usize>)
    ensures
        pick is Some <==> n > 0,
        pick matches Some(i) ==> i < n,
{
    rand::seq::IteratorRandom::choose(0..n, &mut rand::thread_rng())
}

/// Calls `rand::seq::IteratorRandom::choose_multiple` on the numbers below `n`
/// with the thread's generator. Which numbers come out, and in which order, is
/// left to chance; they are distinct, and as many as asked for or as there are.
#[verifier::external_body]
fn choose_multiple_below(n: usize, amount: usize) -> (picks: Vec<usize>)
    requires
        amount <= 0x10_0000,
    ensures
        picks@.len() == if amount < n {
            amount
        } else {
            n
        },
        forall|i: int| 0 <= i < picks@.len() ==> picks@[i] < n,
        picks@.no_duplicates(),
{
    rand::seq::IteratorRandom::choose_multiple(0..n, &mut rand::thread_rng(), amount)
}

/// One of `peers` at random, where there is any.
pub fn pick_peer(peers: &Vec<NodeId>) -> (pick: Option<NodeId>)
    ensures
        pick is Some <==> peers@.len() > 0,
        pick matches Some(peer) ==> peers@.contains(peer),
{
    match choose_below(peers.len()) {
        Some(i) => {
            assert(peers@[i as int] == peers[i as int]);
            Some(peers[i])
        },
        None => None,
    }
}

/// No peer is listed twice.
pub open spec fn distinct_peers<K>(nodes: Seq<(NodeId, K)>) -> bool {
    forall|i: int, j: int|
        0 <= i < nodes.len() && 0 <= j < nodes.len() && i != j ==> (#[trigger] nodes[i]).0 != (
        #[trigger] nodes[j]).0
}

/// `route` leads through three different nodes, each with its own key, of
/// which the first is the target.
pub open spec fn is_route<K>(
    nodes: Seq<(NodeId, K)>,
    target: NodeId,
    route: Seq<(K, NodeId)>,
) -> bool {
    &&& route.len() == 3
    &&& route[0].1 == target
    &&& forall|i: int| 0 <= i < 3 ==> nodes.contains(((#[trigger] route[i]).1, route[i].0))
    &&& forall|i: int, j: int| 0 <= i < j < 3 ==> (#[trigger] route[i]).1 != (#[trigger] route[j]).1
}

/// A route to `target` by way of two other nodes, drawn at random.
pub fn pick_route<K: Copy>(nodes: &Vec<(NodeId, K)>, target: NodeId) -> (route: [(K, NodeId); 3])
    requires
        distinct_peers(nodes@),
        nodes@.len() >= 3,
        exists|i: int| 0 <= i < nodes@.len() && (#[trigger] nodes@[i]).0 == target,
    ensures
        is_route(nodes@, target, route@),
{
    let mut others: Vec<usize> = Vec::new();
    let mut found: Option<usize> = None;
    let mut i: usize = 0;
    while i < nodes.len()
        invariant
            i <= nodes.len(),
            distinct_peers(nodes@),
            found matches Some(at) ==> at < i && nodes@[at as int].0 == target,
            found is None ==> forall|k: int| 0 <= k < i ==> (#[trigger] nodes@[k]).0 != target,
            others@.len() == if found is Some {
                i - 1
            } else {
                i as int
            },
            others@.no_duplicates(),
            forall|k: int|
                0 <= k < others@.len() ==> #[trigger] others@[k] < i
                    && nodes@[others@[k] as int].0 != target,
        decreases nodes.len() - i,
    {
        if same_id(&nodes[i].0, &target) {
            found = Some(i);
        } else {
            others.push(i);
        }
        i = i + 1;
    }
    let ghost witness = choose|i: int| 0 <= i < nodes@.len() && (#[trigger] nodes@[i]).0 == target;
    assert(nodes@[witness].0 == target);
    let at: usize = found.unwrap();
    let picks: Vec<usize> = choose_multiple_below(others.len(), 2);
    let a: usize = others[picks[0]];
    let b: usize = others[picks[1]];
    let route: [(K, NodeId); 3] = [
        (nodes[at].1, nodes[at].0),
        (nodes[a].1, nodes[a].0),
        (nodes[b].1, nodes[b].0),
    ];
    proof {
        assert(picks@[0] != picks@[1]);
        assert(a != b);
        assert(nodes@[at as int] == (route@[0].1, route@[0].0));
        assert(nodes@[a as int] == (route@[1].1, route@[1].0));
        assert(nodes@[b as int] == (route@[2].1, route@[2].0));
        assert(nodes@.contains((route@[0].1, route@[0].0)));
        assert(nodes@.contains((route@[1].1, route@[1].0)));
        assert(nodes@.contains((route@[2].1, route@[2].0)));
    }
    route
}

/// A pick is one of the peers, and there is one wherever there are peers.
pub proof fn lemma_pick_is_a_peer(peers: Vec<NodeId>)
    ensures
        forall|pick: Option<NodeId>| #[trigger]
            call_ensures(pick_peer, (&peers,), pick) ==> match pick {
                Some(peer) => exists|i: int| 0 <= i < peers@.len() && #[trigger] peers@[i] == peer,
                None => peers@.len() == 0,
            },
{
}

/// A route leads through three different nodes, each with the key that it is listed
/// with, and the target comes first.
pub proof fn lemma_route_leads_to_target<K: Copy>(nodes: Vec<(NodeId, K)>, target: NodeId)
    ensures
        forall|route: [(K, NodeId); 3]| #[trigger]
            call_ensures(pick_route::<K>, (&nodes, target), route) ==> {
                &&& route@[0].1 == target
                &&& route@[1].1 != target
                &&& route@[2].1 != target
                &&& route@[1].1 != route@[2].1
                &&& forall|k: int|
                    0 <= k < 3 ==> exists|i: int|
                        {
                            &&& 0 <= i < nodes@.len()
                            &&& (#[trigger] nodes@[i]).0 == (#[trigger] route@[k]).1
                            &&& nodes@[i].1 == route@[k].0
                        }
            },
{
    assert forall|route: [(K, NodeId); 3]| #[trigger]
        call_ensures(pick_route::<K>, (&nodes, target), route) implies {
        &&& route@[0].1 == target
        &&& route@[1].1 != target
        &&& route@[2].1 != target
        &&& route@[1].1 != route@[2].1
        &&& forall|k: int|
            0 <= k < 3 ==> exists|i: int|
                {
                    &&& 0 <= i < nodes@.len()
                    &&& (#[trigger] nodes@[i]).0 == (#[trigger] route@[k]).1
                    &&& nodes@[i].1 == route@[k].0
                }
    } by {
        assert forall|k: int| 0 <= k < 3 implies exists|i: int|
            {
                &&& 0 <= i < nodes@.len()
                &&& (#[trigger] nodes@[i]).0 == (#[trigger] route@[k]).1
                &&& nodes@[i].1 == route@[k].0
            } by {
            let pair = (route@[k].1, route@[k].0);
            assert(nodes@.contains(pair));
            let i = choose|i: int| 0 <= i < nodes@.len() && nodes@[i] == pair;
            assert(nodes@[i].0 == route@[k].1);
        }
    }
}

} // verus!
