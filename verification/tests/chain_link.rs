use orion::chain::{
    conclude, Client, NodeEvent, Received, Request, RequestBody, RequestError, Response,
};
use orion::wire::from_le;

fn encode(request: &Request) -> Vec<u8> {
    let mut bytes = vec![request.id as u8];
    match request.body {
        RequestBody::GetSub { topic } => bytes.push(topic[0]),
        RequestBody::VoteIfPossible { source, target } => bytes.extend([source[0], target[0]]),
        RequestBody::ListNodes => {}
    }
    bytes
}

#[test]
fn questions_are_numbered() {
    let mut counter = 0;
    let client: Client<&str> = Client::new();
    let first = client.get_sub(&mut counter, [1; 32]);
    let second = client.vote_if_possible(&mut counter, [2; 32], [3; 32]);
    let third = client.list_nodes(&mut counter);
    assert_eq!([first.id, second.id, third.id], [0, 1, 2]);
    assert!(matches!(first.body, RequestBody::GetSub { topic } if topic == [1; 32]));
    assert!(matches!(
        second.body,
        RequestBody::VoteIfPossible { source, target } if source == [2; 32] && target == [3; 32]
    ));
    assert!(matches!(third.body, RequestBody::ListNodes));
}

#[test]
fn links_share_their_numbers() {
    let mut counter = 0;
    let (one, other): (Client<&str>, Client<&str>) = (Client::new(), Client::new());
    let ids = [
        one.list_nodes(&mut counter).id,
        other.list_nodes(&mut counter).id,
        one.get_sub(&mut counter, [1; 32]).id,
    ];
    assert_eq!(ids, [0, 1, 2]);
}

#[test]
fn numbers_start_over() {
    let mut counter = usize::MAX;
    assert_eq!(Request::new(&mut counter, RequestBody::ListNodes).id, usize::MAX);
    assert_eq!(Request::new(&mut counter, RequestBody::ListNodes).id, 0);
    assert_eq!(counter, 1);
}

#[test]
fn first_question_is_read_back() {
    let mut counter = 0;
    let mut client: Client<&str> = Client::new();
    let request = client.get_sub(&mut counter, [7; 32]);
    let frame = client.submit(&request, "asker", encode);
    assert_eq!(from_le(frame[..4].try_into().unwrap()), 2);
    assert_eq!(frame[4..], [0, 7]);
}

#[test]
fn later_frames_repeat_what_was_sent_before() {
    let mut counter = 0;
    let mut client: Client<&str> = Client::new();
    let first = client.get_sub(&mut counter, [7; 32]);
    client.submit(&first, "a", encode);
    let second = client.vote_if_possible(&mut counter, [8; 32], [9; 32]);
    assert_eq!(client.submit(&second, "b", encode), vec![5, 0, 0, 0, 0, 7, 1, 8, 9]);
}

#[test]
fn answers_reach_those_who_asked() {
    let mut counter = 0;
    let mut client: Client<&str> = Client::new();
    let first = client.list_nodes(&mut counter);
    let second = client.list_nodes(&mut counter);
    client.submit(&first, "first", encode);
    client.submit(&second, "second", encode);
    assert!(client.expects(second.id));
    let received = client.receive(second.answer(vec![2]));
    assert!(!client.expects(second.id));
    assert!(matches!(received, Received::Answer("second", body) if body == vec![2]));
    let received = client.receive(first.answer(vec![1]));
    assert!(matches!(received, Received::Answer("first", body) if body == vec![1]));
}

#[test]
fn events_are_handed_on() {
    let mut client: Client<&str> = Client::new();
    let event = Response::Event(NodeEvent::Left { node: [4; 32] });
    assert!(matches!(
        client.receive(event),
        Received::Event(NodeEvent::Left { node }) if node == [4; 32]
    ));
}

#[test]
fn answer_carries_the_number_of_the_question() {
    let request = Request { id: 12, body: RequestBody::ListNodes };
    assert!(matches!(
        request.answer(vec![1, 2]),
        Response::Body { id: 12, body } if body == vec![1, 2]
    ));
}

#[test]
fn replies_are_concluded() {
    let decode = |bytes: Vec<u8>| bytes.first().copied();
    assert_eq!(conclude(true, Some(vec![5]), decode), Ok(5));
    assert_eq!(conclude(true, Some(vec![]), decode), Err(RequestError::InvalidData));
    assert_eq!(conclude(true, None, decode), Err(RequestError::Interrupted));
    assert_eq!(conclude(false, None, decode), Err(RequestError::ConnectionAborted));
    assert_eq!(conclude(false, Some(vec![5]), decode), Err(RequestError::ConnectionAborted));
}
