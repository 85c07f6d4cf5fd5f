use orion::ids::{NodeId, PathId, Topic};
use orion::node::{
    Node, RawOnionRequest, Request, RequestInit, Rpc, Subscription, SubscriptionInit,
};
use std::collections::HashMap;

type TestNode = Node<&'static str, &'static str, &'static str>;
type Init = RequestInit<&'static str, &'static str>;

const CHAT: Topic = Topic::Chat([1; 32]);
const OTHER: Topic = Topic::Chat([2; 32]);

fn path(id: PathId, peer: u8, topics: Vec<Topic>) -> Subscription<&'static str> {
    Subscription { id, peer_id: [peer; 32], topics, subscriptions: HashMap::new() }
}

fn node(paths: Vec<Subscription<&'static str>>) -> TestNode {
    Node::from_paths(paths)
}

fn ask(id: u32, topic: Option<Topic>) -> Init {
    RequestInit::OnionRequest(RawOnionRequest {
        id,
        topic,
        prefix: 9,
        payload: vec![id as u8],
        response: "asker",
    })
}

fn listen(id: u32, topic: Topic) -> Init {
    RequestInit::Subscription(SubscriptionInit { id, topic, channel: "listener" })
}

fn nobody(_: Topic) -> Vec<NodeId> {
    panic!("looked for members")
}

fn no_path(_: NodeId) -> PathId {
    panic!("opened a path")
}

fn covers(sub: &Subscription<&'static str>, topic: &Topic) -> bool {
    orion::ids::position_of_topic(&sub.topics, topic).is_some()
}

fn assert_write(write: Option<(PathId, Request)>, path: PathId, prefix: Rpc, id: u32) {
    let (to, request) = write.unwrap();
    assert_eq!(to, path);
    assert_eq!(request.prefix, prefix);
    assert_eq!(request.id, id);
}

#[test]
fn request_goes_to_the_first_path_that_serves_its_topic() {
    let mut node = node(vec![path(1, 1, vec![OTHER]), path(2, 2, vec![CHAT]), path(3, 3, vec![CHAT])]);
    let write = node.command(ask(5, Some(CHAT)), 0, nobody, no_path);
    let (to, request) = write.unwrap();
    assert_eq!(to, 2);
    assert_eq!(request.prefix, Rpc::Raw(9));
    assert_eq!(request.id, 5);
    assert_eq!(request.body, vec![5]);
    assert!(matches!(request.topic, Some(Topic::Chat(name)) if name == [1; 32]));
    assert!(node.expects(5));
    assert!(!node.expects(6));
}

#[test]
fn request_without_topic_goes_to_any_path() {
    let mut node = node(vec![path(1, 1, vec![OTHER])]);
    assert_write(node.command(ask(5, None), 0, nobody, no_path), 1, Rpc::Raw(9), 5);
}

#[test]
fn subscription_listens_on_the_path_it_is_written_to() {
    let mut node = node(vec![path(1, 1, vec![CHAT])]);
    assert_write(node.command(listen(6, CHAT), 0, nobody, no_path), 1, Rpc::Subscribe, 6);
    assert_eq!(node.paths()[0].subscriptions.get(&6), Some(&"listener"));
}

#[test]
fn topic_without_path_is_searched_for_once() {
    let mut node: TestNode = Node::new();
    let members = |_: Topic| vec![[7; 32]];
    let write = node.command(ask(1, Some(CHAT)), 0, members, |peer| {
        assert_eq!(peer, [7; 32]);
        40
    });
    assert!(write.is_none());
    assert!(node.command(listen(2, CHAT), 0, nobody, no_path).is_none());
    assert_eq!(node.pending_topic_search().len(), 1);
    assert_eq!(node.pending_topic_search()[&40].len(), 2);
}

#[test]
fn different_topics_are_searched_for_apart() {
    let mut node: TestNode = Node::new();
    node.command(ask(1, Some(CHAT)), 0, |_| vec![[7; 32]], |_| 40);
    node.command(ask(2, Some(OTHER)), 0, |_| vec![[7; 32]], |_| 41);
    assert_eq!(node.pending_topic_search().len(), 2);
}

#[test]
fn path_to_a_member_takes_the_topic_on() {
    let mut node = node(vec![path(1, 1, vec![OTHER]), path(2, 2, vec![])]);
    let write = node.command(ask(5, Some(CHAT)), 0, |_| vec![[9; 32], [2; 32]], no_path);
    assert_write(write, 2, Rpc::Raw(9), 5);
    assert!(covers(&node.paths()[1], &CHAT));
    assert!(!covers(&node.paths()[0], &CHAT));
}

#[test]
fn command_about_a_topic_without_members_is_dropped() {
    let mut node: TestNode = Node::new();
    assert!(node.command(ask(1, Some(CHAT)), 0, |_| vec![], no_path).is_none());
    assert_eq!(node.pending_topic_search().len(), 0);
}

#[test]
fn search_picks_one_of_the_members() {
    for _ in 0..50 {
        let mut node: TestNode = Node::new();
        let members = |_: Topic| vec![[1; 32], [2; 32], [3; 32]];
        node.command(ask(1, Some(CHAT)), 0, members, |peer| {
            assert!([[1; 32], [2; 32], [3; 32]].contains(&peer));
            40
        });
        assert_eq!(node.pending_topic_search().len(), 1);
    }
}

#[test]
fn what_waited_is_written_to_the_path_that_opened() {
    let mut node = node(vec![path(1, 1, vec![OTHER])]);
    node.command(ask(1, Some(CHAT)), 0, |_| vec![[7; 32]], |_| 40);
    node.command(listen(2, CHAT), 0, nobody, no_path);
    node.command(ask(3, Some(CHAT)), 0, nobody, no_path);
    let writes = node.outbound_stream(40, Some([7; 32]));
    let sent: Vec<_> = writes.iter().map(|(to, r)| (*to, r.prefix, r.id)).collect();
    assert_eq!(
        sent,
        vec![(40, Rpc::Raw(9), 1), (40, Rpc::Subscribe, 2), (40, Rpc::Raw(9), 3)]
    );
    assert_eq!(node.pending_topic_search().len(), 0);
    let opened = &node.paths()[0];
    assert_eq!((opened.id, opened.peer_id), (40, [7; 32]));
    assert!(covers(opened, &CHAT));
    assert!(opened.subscriptions.contains_key(&2));
    assert!(node.expects(1));
    assert!(node.expects(3));
}

#[test]
fn what_waited_for_a_path_that_failed_is_dropped() {
    let mut node: TestNode = Node::new();
    node.command(ask(1, Some(CHAT)), 0, |_| vec![[7; 32]], |_| 40);
    assert!(node.outbound_stream(40, None).is_empty());
    assert_eq!(node.pending_topic_search().len(), 0);
    assert_eq!(node.paths().len(), 0);
}

#[test]
fn path_that_nobody_waits_for_changes_nothing() {
    let mut node: TestNode = Node::new();
    assert!(node.outbound_stream(40, Some([7; 32])).is_empty());
    assert_eq!(node.paths().len(), 0);
}

#[test]
fn ended_topic_is_no_longer_served() {
    let mut node = node(vec![path(1, 1, vec![CHAT, OTHER, Topic::Profile([1; 32])])]);
    let end = RequestInit::EndSubscription(CHAT);
    assert_write(node.command(end, 77, nobody, no_path), 1, Rpc::Unsubscribe, 77);
    assert!(!covers(&node.paths()[0], &CHAT));
    assert!(covers(&node.paths()[0], &OTHER));
    assert!(matches!(node.paths()[0].topics[0], Topic::Profile(_)));
}

#[test]
fn ending_what_nobody_serves_does_nothing() {
    let mut node = node(vec![path(1, 1, vec![OTHER])]);
    assert!(node.subscription_end(CHAT, 1).is_none());
    assert_eq!(node.paths()[0].topics.len(), 1);
}

#[test]
fn storage_and_satelite_requests_are_not_served() {
    let mut node: TestNode = Node::new();
    assert!(node.command(RequestInit::StorageRequest, 0, nobody, no_path).is_none());
    assert!(node.command(RequestInit::SateliteRequest, 0, nobody, no_path).is_none());
}

#[test]
fn answer_reaches_the_requester_once() {
    let mut node = node(vec![path(1, 1, vec![CHAT])]);
    node.command(ask(5, Some(CHAT)), 0, nobody, no_path);
    let answer = node.subscription_response(1, Some((5, vec![1, 2])), |_, _| panic!("offered"));
    assert_eq!(answer, Some(("asker", vec![1, 2])));
    let again = node.subscription_response(1, Some((5, vec![1, 2])), |_, _| panic!("offered"));
    assert_eq!(again, None);
}

#[test]
fn message_reaches_the_subscriber() {
    let mut node = node(vec![path(1, 1, vec![CHAT])]);
    node.command(listen(6, CHAT), 0, nobody, no_path);
    let answer = node.subscription_response(1, Some((6, vec![3])), |channel, content| {
        assert_eq!((*channel, content), ("listener", vec![3]));
        true
    });
    assert_eq!(answer, None);
    assert!(node.paths()[0].subscriptions.contains_key(&6));
}

#[test]
fn channel_that_refuses_is_dropped() {
    let mut node = node(vec![path(1, 1, vec![CHAT])]);
    node.command(listen(6, CHAT), 0, nobody, no_path);
    node.subscription_response(1, Some((6, vec![3])), |_, _| false);
    assert!(!node.paths()[0].subscriptions.contains_key(&6));
}

#[test]
fn message_over_another_path_is_ignored() {
    let mut node = node(vec![path(1, 1, vec![CHAT]), path(2, 2, vec![])]);
    node.command(listen(6, CHAT), 0, nobody, no_path);
    node.subscription_response(2, Some((6, vec![3])), |_, _| panic!("offered"));
    node.subscription_response(1, None, |_, _| panic!("offered"));
    assert!(node.paths()[0].subscriptions.contains_key(&6));
}

#[test]
fn last_request_for_a_stream_gets_it() {
    let mut node: TestNode = Node::new();
    node.stream_request([1; 32], 12, "c");
    node.stream_request([2; 32], 11, "b");
    node.stream_request([1; 32], 10, "a");
    assert_eq!(node.outgoing_stream([1; 32], false), None);
    assert_eq!(node.outgoing_stream([1; 32], true), Some((12, "c")));
    assert_eq!(node.outgoing_stream([1; 32], true), Some((10, "a")));
    assert_eq!(node.outgoing_stream([1; 32], true), None);
    assert_eq!(node.outgoing_stream([2; 32], true), Some((11, "b")));
}

#[test]
fn search_that_is_going_on_asks_nobody() {
    let mut node: TestNode = Node::new();
    node.handle_topic_search(ask(1, Some(CHAT)), |_| vec![[7; 32]], |_| 40);
    assert!(node.handle_topic_search(ask(2, Some(CHAT)), nobody, no_path).is_none());
    assert!(node.handle_topic_search(ask(3, Some(OTHER)), |_| vec![[8; 32]], |_| 41).is_none());
    let waiting: Vec<usize> = [40, 41].map(|id| node.pending_topic_search()[&id].len()).into();
    assert_eq!(waiting, vec![2, 1]);
}

#[test]
fn ended_path_is_used_no_more() {
    let mut node = node(vec![path(1, 1, vec![CHAT]), path(2, 2, vec![OTHER])]);
    node.command(listen(6, CHAT), 0, nobody, no_path);
    node.path_ended(1);
    assert_eq!(node.paths().iter().map(|path| path.id).collect::<Vec<_>>(), vec![2]);
    node.subscription_response(1, Some((6, vec![3])), |_, _| panic!("offered"));
    let write = node.command(ask(7, Some(CHAT)), 0, |_| vec![[1; 32]], |_| 40);
    assert!(write.is_none());
    assert_eq!(node.pending_topic_search()[&40].len(), 1);
    assert_write(node.command(ask(8, Some(OTHER)), 0, nobody, no_path), 2, Rpc::Raw(9), 8);
}

#[test]
fn unknown_path_cannot_end() {
    let mut node = node(vec![path(1, 1, vec![CHAT])]);
    node.path_ended(9);
    assert_eq!(node.paths().len(), 1);
}

fn walk(node: &TestNode) -> Vec<PathId> {
    node.paths().iter().map(|path| path.id).collect()
}

#[test]
fn latest_path_comes_first() {
    let mut node = node(vec![path(1, 1, vec![OTHER])]);
    node.command(ask(1, Some(CHAT)), 0, |_| vec![[7; 32]], |_| 40);
    node.outbound_stream(40, Some([7; 32]));
    assert_eq!(walk(&node), vec![40, 1]);
    assert_write(node.command(ask(2, None), 0, nobody, no_path), 40, Rpc::Raw(9), 2);
}

#[test]
fn polled_path_is_preferred() {
    let paths = vec![path(1, 1, vec![CHAT]), path(2, 2, vec![CHAT]), path(3, 3, vec![CHAT])];
    let mut node = node(paths);
    node.path_polled(3);
    assert_eq!(walk(&node), vec![3, 1, 2]);
    assert_write(node.command(ask(5, Some(CHAT)), 0, nobody, no_path), 3, Rpc::Raw(9), 5);
    node.path_polled(9);
    assert_eq!(walk(&node), vec![3, 1, 2]);
}

#[test]
fn message_brings_its_path_to_the_front() {
    let mut node = node(vec![path(1, 1, vec![CHAT]), path(2, 2, vec![CHAT])]);
    node.subscription_response(2, None, |_, _| panic!("offered"));
    assert_eq!(walk(&node), vec![2, 1]);
    node.command(ask(5, Some(CHAT)), 0, nobody, no_path);
    let answer = node.subscription_response(1, Some((5, vec![1])), |_, _| panic!("offered"));
    assert_eq!(answer, Some(("asker", vec![1])));
    assert_eq!(walk(&node), vec![1, 2]);
}

#[test]
fn only_the_channel_that_refuses_is_dropped() {
    let mut node = node(vec![path(1, 1, vec![CHAT]), path(2, 2, vec![OTHER])]);
    node.command(listen(6, CHAT), 0, nobody, no_path);
    node.command(listen(6, OTHER), 0, nobody, no_path);
    node.subscription_response(2, Some((6, vec![3])), |_, _| false);
    let left: Vec<_> = node.paths().iter().map(|p| (p.id, p.subscriptions.len())).collect();
    assert_eq!(left, vec![(2, 0), (1, 1)]);
}

#[test]
fn search_for_a_served_topic_stays_apart() {
    let mut node = node(vec![path(1, 1, vec![CHAT])]);
    node.handle_topic_search(ask(1, Some(CHAT)), |_| vec![[7; 32]], |_| 40);
    node.handle_topic_search(ask(2, Some(CHAT)), nobody, no_path);
    assert_eq!(node.pending_topic_search().len(), 1);
    assert_eq!(node.pending_topic_search()[&40].len(), 2);
}
