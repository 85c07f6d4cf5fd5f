use orion::ids::{ChatName, NodeId, Topic};
use orion::route::{pick_peer, pick_route};
use orion::topology::{candidates, connections, first_members, plan_connections, split};

fn id(n: u8) -> NodeId {
    [n; 32]
}

fn chat(n: u8) -> ChatName {
    [100 + n; 32]
}

#[test]
fn picked_peer_is_one_of_the_peers() {
    assert_eq!(pick_peer(&vec![]), None);
    assert_eq!(pick_peer(&vec![id(4)]), Some(id(4)));
    let peers = vec![id(1), id(2), id(3)];
    for _ in 0..50 {
        assert!(peers.contains(&pick_peer(&peers).unwrap()));
    }
}

#[test]
fn route_starts_at_the_target_and_has_three_nodes() {
    let nodes: Vec<(NodeId, u8)> = (0..6).map(|n| (id(n), 10 + n)).collect();
    for _ in 0..50 {
        let route = pick_route(&nodes, id(3));
        assert_eq!(route[0], (13, id(3)));
        assert_ne!(route[1].1, id(3));
        assert_ne!(route[2].1, id(3));
        assert_ne!(route[1].1, route[2].1);
        for (key, peer) in route {
            assert!(nodes.contains(&(peer, key)));
        }
    }
}

#[test]
fn smallest_network_has_one_route_up_to_order() {
    let nodes = vec![(id(1), 'a'), (id(2), 'b'), (id(3), 'c')];
    let route = pick_route(&nodes, id(2));
    let mut rest = vec![route[1], route[2]];
    rest.sort();
    assert_eq!(rest, vec![('a', id(1)), ('c', id(3))]);
}

#[test]
fn members_are_the_first_of_the_closest() {
    assert_eq!(first_members(&vec![id(1), id(2), id(3)], 2), vec![id(1), id(2)]);
    assert_eq!(first_members(&vec![id(1)], 2), vec![id(1)]);
    assert!(first_members(&vec![id(1)], 0).is_empty());
}

#[test]
fn candidates_keep_the_order_of_chats_and_members() {
    let members = vec![(chat(1), vec![id(1), id(2), id(3)]), (chat(2), vec![id(2)])];
    assert_eq!(
        candidates(&members, 2),
        vec![(id(1), chat(1)), (id(2), chat(1)), (id(2), chat(2))]
    );
}

#[test]
fn chats_of_the_profile_node_ride_along() {
    let pairs = vec![
        (id(9), chat(1)),
        (id(1), chat(1)),
        (id(1), chat(2)),
        (id(1), chat(1)),
        (id(9), chat(2)),
        (id(2), chat(2)),
    ];
    let (topics, nodes) = split(&pairs, id(9));
    assert!(matches!(topics[..], [Topic::Chat(a), Topic::Chat(b)] if a == chat(1) && b == chat(2)));
    assert_eq!(nodes, vec![(id(1), vec![chat(1), chat(2)]), (id(2), vec![chat(2)])]);
}

#[test]
fn node_with_most_chats_comes_first() {
    let nodes = vec![
        (id(1), vec![chat(1)]),
        (id(2), vec![chat(1), chat(2), chat(3)]),
        (id(3), vec![chat(4), chat(3)]),
    ];
    let plan = plan_connections(nodes, &vec![chat(1), chat(2), chat(3), chat(4)]);
    assert_eq!(
        plan,
        vec![(id(2), vec![chat(1), chat(2), chat(3)]), (id(3), vec![chat(4)])]
    );
}

#[test]
fn of_nodes_with_as_many_chats_the_last_comes_first() {
    let nodes = vec![(id(1), vec![chat(1)]), (id(2), vec![chat(1)])];
    assert_eq!(plan_connections(nodes, &vec![chat(1)]), vec![(id(2), vec![chat(1)])]);
}

#[test]
fn nodes_without_new_chats_are_passed_over() {
    let nodes = vec![
        (id(1), vec![chat(3)]),
        (id(2), vec![chat(1), chat(2)]),
        (id(3), vec![chat(2), chat(1)]),
    ];
    assert_eq!(
        plan_connections(nodes, &vec![chat(1), chat(2), chat(3)]),
        vec![(id(3), vec![chat(2), chat(1)]), (id(1), vec![chat(3)])]
    );
}

#[test]
fn no_chats_need_no_connections() {
    assert!(plan_connections(vec![], &vec![]).is_empty());
    let (topics, plan) = connections(&vec![], 3, id(1));
    assert!(topics.is_empty());
    assert!(plan.is_empty());
}

#[test]
fn every_chat_is_asked_of_exactly_one_node_that_serves_it() {
    let members: Vec<(ChatName, Vec<NodeId>)> = (0..12u8)
        .map(|c| (chat(c), (0..5u8).map(|i| id((c * 3 + i * 2) % 11)).collect()))
        .collect();
    let (topics, plan) = connections(&members, 4, id(0));
    for (name, closest) in &members {
        let asked: Vec<_> = plan.iter().filter(|(_, chats)| chats.contains(name)).collect();
        assert_eq!(asked.len(), 1);
        assert!(closest[..4].contains(&asked[0].0));
        let rides = topics.iter().filter(|t| matches!(t, Topic::Chat(c) if c == name)).count();
        assert_eq!(rides, closest[..4].iter().filter(|p| **p == id(0)).count());
    }
    for (peer, chats) in &plan {
        assert_ne!(*peer, id(0));
        assert!(!chats.is_empty());
    }
}
