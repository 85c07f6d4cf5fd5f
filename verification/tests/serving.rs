use orion::chain::{NodeEvent, Subscription};
use orion::context::ClientEvent;
use orion::ids::Topic;
use orion::net::SocketAddr;
use orion::request::{
    send_request, send_request_low, timeout, RequestFailure, Tick, REQUEST_TIMEOUT,
};
use orion::errors::ChatError;
use orion::server::{
    auth, client_request, client_response, handle_event, now, routes, server_request,
    server_response, stake_event, OnlineLocation, PendingStreams, StakeAction, StreamError,
    BAN_TIMEOUT, MAX_CLIENT_MESSAGE,
};
use orion::wire::RequestHeader;

const TOPIC: Topic = Topic::Chat([1; 32]);
const ADDR: SocketAddr = SocketAddr::V4 { ip: [1, 2, 3, 4], port: 5 };

#[test]
fn clock_before_the_epoch_is_the_end_of_time() {
    assert_eq!(now(Some(17)), 17);
    assert_eq!(now(None), u64::MAX);
}

#[test]
fn members_of_the_group_are_let_in() {
    let header = RequestHeader { prefix: 4, call_id: [1, 2, 3, 4], topic: TOPIC, len: [0, 0, 2, 0] };
    let (state, len) = server_request(&header, [7; 32], &vec![[6; 32], [7; 32]]).unwrap();
    assert_eq!(len, 512);
    assert_eq!((state.id, state.prefix), ([1, 2, 3, 4], 4));
    assert!(matches!(state.location, OnlineLocation::Remote(peer) if peer == [7; 32]));
    assert!(matches!(state.topic, Topic::Chat(name) if name == [1; 32]));
}

#[test]
fn strangers_are_rated() {
    let header = RequestHeader::new(4, TOPIC, 0);
    let trespass = server_request(&header, [8; 32], &vec![[6; 32]]).unwrap_err();
    assert_eq!((trespass.peer, trespass.rate), ([8; 32], 100));
    assert_eq!(trespass.message(), "not in replication group");
}

#[test]
fn streams_of_peers_are_used_again() {
    type Routed = Option<Result<Option<u8>, &'static str>>;
    let done = |routed: Routed| server_response(routed);
    assert!(matches!(done(Some(Ok(Some(3)))), Ok(3)));
    assert!(matches!(done(Some(Ok(None))), Err(StreamError::ConnectionAborted)));
    assert!(matches!(done(Some(Err("io"))), Err(StreamError::Other("io"))));
    assert!(matches!(done(None), Err(StreamError::Unsupported)));
}

#[test]
fn clients_are_served_where_the_server_is_in_the_group() {
    let header = RequestHeader::new(4, TOPIC, MAX_CLIENT_MESSAGE);
    let (state, len) = client_request::<()>(&header, 11, [7; 32], &vec![[7; 32]]).unwrap();
    assert_eq!(len, 65535);
    assert!(matches!(state.location, OnlineLocation::Local(11)));
    let refused = client_request::<()>(&header, 11, [8; 32], &vec![[7; 32]]);
    assert!(matches!(refused, Err(StreamError::InvalidInput)));
}

#[test]
fn long_messages_are_refused() {
    let header = RequestHeader::new(4, TOPIC, MAX_CLIENT_MESSAGE + 1);
    let refused = client_request::<()>(&header, 11, [7; 32], &vec![[7; 32]]);
    assert!(matches!(refused, Err(StreamError::InvalidInput)));
}

#[test]
fn clients_without_procedure_are_denied() {
    type Routed = Option<Result<Option<u8>, &'static str>>;
    let done = |routed: Routed| client_response(routed);
    assert!(matches!(done(None), Err(StreamError::PermissionDenied)));
    assert!(matches!(done(Some(Ok(Some(3)))), Ok(3)));
    assert!(matches!(done(Some(Ok(None))), Err(StreamError::ConnectionAborted)));
    assert!(matches!(done(Some(Err("io"))), Err(StreamError::Other("io"))));
}

#[test]
fn events_go_out_under_their_call() {
    let (header, data) = handle_event(ClientEvent::Sub([4, 3, 2, 1], vec![9; 260]));
    assert_eq!(header.call_id, [4, 3, 2, 1]);
    assert_eq!(header.len, [0, 0, 1, 4]);
    assert_eq!(data, vec![9; 260]);
}

#[test]
fn latest_stream_request_is_served_first() {
    let mut pending = PendingStreams::new();
    pending.stream_request([1; 32], "a");
    pending.stream_request([2; 32], "b");
    pending.stream_request([1; 32], "c");
    assert_eq!(pending.outgoing_stream([1; 32], Some(5)), Some(("c", 5)));
    assert_eq!(pending.outgoing_stream([1; 32], Some(6)), Some(("a", 6)));
    assert_eq!(pending.outgoing_stream([1; 32], Some(7)), None);
    assert_eq!(pending.outgoing_stream([3; 32], Some(8)), None);
    assert_eq!(pending.outgoing_stream([2; 32], Some(9)), Some(("b", 9)));
}

#[test]
fn failed_stream_costs_the_latest_request() {
    let mut pending = PendingStreams::new();
    pending.stream_request([1; 32], "a");
    pending.stream_request([1; 32], "b");
    assert_eq!(pending.outgoing_stream::<u8>([1; 32], None), None);
    assert_eq!(pending.outgoing_stream([1; 32], Some(1)), Some(("a", 1)));
}

#[test]
fn routing_table_follows_the_chain() {
    let vote = stake_event(NodeEvent::Voted { source: [1; 32], target: [2; 32] });
    assert!(matches!(
        vote,
        StakeAction::Vote { source, target } if source == [1; 32] && target == [2; 32]
    ));
    assert!(matches!(
        stake_event(NodeEvent::Left { node: [3; 32] }),
        StakeAction::Remove(node) if node == [3; 32]
    ));
    for event in [
        NodeEvent::Join { node: [4; 32], addr: ADDR },
        NodeEvent::AddrChanged { node: [4; 32], addr: ADDR },
    ] {
        let StakeAction::Insert(node, route) = stake_event(event) else { panic!("no route") };
        assert_eq!(node, [4; 32]);
        assert_eq!(route.to_string(), "/ip4/1.2.3.4/tcp/5");
    }
}

#[test]
fn routing_table_starts_with_all_nodes() {
    let table = routes(&vec![([1; 32], ADDR), ([2; 32], ADDR)]);
    assert_eq!(table.len(), 2);
    assert_eq!(table[1].0, [2; 32]);
    assert_eq!(table[0].1.to_string(), "/ip4/1.2.3.4/tcp/5");
    assert!(routes(&vec![]).is_empty());
}

#[test]
fn valid_subscriptions_let_clients_in() {
    let sub = Subscription { topic: [1; 32], amount: 5, timetsmp: 100 };
    let verdict = auth(Some(sub), 1000, 50, |sub, now| sub.amount == 5 && now == 1000);
    assert_eq!(verdict, Ok(150));
    assert_eq!(auth(Some(sub), 1000, 50, |_, _| false), Err(1000 + BAN_TIMEOUT));
    assert_eq!(auth(None, 1000, 50, |_, _| panic!("looked at")), Err(1180));
}

#[test]
fn bad_clock_does_not_keep_valid_subscriptions_out() {
    let sub = Subscription { topic: [1; 32], amount: 5, timetsmp: 100 };
    assert_eq!(auth(Some(sub), u64::MAX, 50, |_, _| true), Ok(150));
    assert_eq!(auth(Some(sub), 1000, u64::MAX, |_, _| false), Err(1180));
}

#[test]
fn waiting_ends_with_the_value_or_the_time() {
    assert!(matches!(
        timeout(Some('v'), 10, 99, true),
        Tick::Finished { value: 'v', clear: true }
    ));
    assert!(matches!(
        timeout(Some('v'), 10, 5, false),
        Tick::Finished { value: 'v', clear: false }
    ));
    assert!(matches!(timeout::<()>(None, 10, 11, true), Tick::Expired));
    assert!(matches!(timeout::<()>(None, 10, 10, false), Tick::Wait { arm: true }));
    assert!(matches!(timeout::<()>(None, 10, 9, true), Tick::Wait { arm: false }));
    assert_eq!(REQUEST_TIMEOUT, 5);
}

#[test]
fn requests_go_out_behind_their_header() {
    let (header, body) = send_request_low(6, TOPIC, 0x0102u16, |n| n.to_be_bytes().to_vec());
    assert_eq!(body, vec![1, 2]);
    assert_eq!((header.prefix, header.call_id, header.get_len()), (6, [0; 4], 2));
}

#[test]
fn answers_tell_the_result_or_what_went_wrong() {
    let decode = |bytes: Vec<u8>| match bytes[..] {
        [n] => Some(Ok(n)),
        [] => Some(Err(ChatError::NoReplicator)),
        [_, other] => Some(Err(ChatError::Other(other))),
        _ => None,
    };
    assert!(matches!(send_request::<_, (), u8, _>(Some(Ok(vec![4])), decode), Ok(4)));
    assert!(matches!(
        send_request::<_, (), u8, _>(Some(Ok(vec![])), decode),
        Err(RequestFailure::Chat(ChatError::NoReplicator))
    ));
    assert!(matches!(
        send_request::<_, (), u8, _>(Some(Ok(vec![1, 2])), decode),
        Err(RequestFailure::Chat(ChatError::Other(2)))
    ));
    assert!(matches!(
        send_request::<_, (), u8, _>(Some(Ok(vec![1, 2, 3])), decode),
        Err(RequestFailure::InvalidData)
    ));
    assert!(matches!(
        send_request::<_, _, u8, _>(Some(Err("io")), decode),
        Err(RequestFailure::Connection("io"))
    ));
    assert!(matches!(send_request::<_, (), u8, _>(None, decode), Err(RequestFailure::Timeout)));
}
