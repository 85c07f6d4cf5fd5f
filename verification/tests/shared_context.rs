use orion::context::{
    await_reply, conclude_replies, is_fresh, pair_streams, ClientEvent, Delivery, OwnedContext,
    Reply, ReplyStep, StreamCache, FRESH_FOR,
};
use orion::errors::ChatError;
use orion::ids::Topic;
use std::collections::HashMap;

const SECOND: u64 = 1_000_000_000;

#[test]
fn streams_stay_fresh_for_three_seconds() {
    assert_eq!(FRESH_FOR, 3 * SECOND);
    assert!(is_fresh(5, 5));
    assert!(is_fresh(0, FRESH_FOR - 1));
    assert!(!is_fresh(0, FRESH_FOR));
    assert!(is_fresh(10, 3));
}

#[test]
fn recycled_streams_come_back_latest_first() {
    let mut cache = StreamCache::default();
    assert_eq!(cache.reuse([1; 32], 0), None);
    cache.recycle([1; 32], 7, 0);
    cache.recycle([1; 32], 8, 1);
    assert_eq!(cache.reuse([1; 32], 2), Some(8));
    assert_eq!(cache.reuse([1; 32], 2), Some(7));
    assert_eq!(cache.reuse([1; 32], 2), None);
}

#[test]
fn peers_are_kept_apart() {
    let mut cache = StreamCache::default();
    cache.recycle([1; 32], 7, 0);
    assert_eq!(cache.reuse([2; 32], 0), None);
    assert_eq!(cache.reuse([1; 32], 0), Some(7));
}

#[test]
fn stale_streams_are_given_up() {
    let mut cache = StreamCache::default();
    cache.recycle([1; 32], 7, 0);
    cache.recycle([1; 32], 8, 2 * SECOND);
    assert_eq!(cache.reuse([1; 32], 3 * SECOND), Some(8));
    assert_eq!(cache.reuse([1; 32], 3 * SECOND), None);
    assert_eq!(cache.reuse([1; 32], 0), None);
}

#[test]
fn eleventh_stream_is_given_up() {
    let mut cache = StreamCache::default();
    for stream in 0..11 {
        assert_eq!(cache.recycle([1; 32], stream, 0), stream < 10);
    }
    for stream in (0..10).rev() {
        assert_eq!(cache.reuse([1; 32], 0), Some(stream));
    }
    assert_eq!(cache.reuse([1; 32], 0), None);
}

#[test]
fn recovery_is_started_unless_it_is_going_on() {
    let mut context = OwnedContext::new([0; 32]);
    let topic = Topic::Chat([1; 32]);
    assert!(context.start_recovery(topic));
    assert!(context.start_recovery(topic));
    context.ongoing_recovery.insert((true, [1; 32]));
    assert!(!context.start_recovery(topic));
    assert!(context.ongoing_recovery.contains(&(true, [1; 32])));
    assert!(context.start_recovery(Topic::Profile([1; 32])));
}

#[test]
fn failed_recoveries_are_remembered() {
    let mut context = OwnedContext::new([0; 32]);
    context.recovery_finished(Topic::Profile([1; 32]), true);
    assert!(context.not_found.is_empty());
    context.recovery_finished(Topic::Profile([1; 32]), false);
    assert!(context.not_found.contains(&(false, [1; 32])));
    assert_eq!(context.not_found.len(), 1);
}

#[test]
fn chat_events_reach_all_listeners() {
    let mut context = OwnedContext::new([0; 32]);
    let listeners = HashMap::from([(1, [1; 4]), (2, [2; 4]), (3, [3; 4])]);
    context.chat_subs.insert([5; 32], listeners);
    let mut calls = Vec::new();
    let send = |events: Vec<(u64, ClientEvent)>| {
        let mut outcomes = Vec::new();
        for (path, ClientEvent::Sub(call, content)) in events {
            assert_eq!(content, b"hello");
            calls.push((path, call));
            outcomes.push(match path {
                1 => Delivery::Sent,
                2 => Delivery::Refused,
                _ => Delivery::NoClient,
            });
        }
        outcomes
    };
    context.push_chat_event([5; 32], &b"hello".to_vec(), send);
    calls.sort();
    assert_eq!(calls, vec![(1, [1; 4]), (2, [2; 4]), (3, [3; 4])]);
    assert_eq!(*context.chat_subs.get(&[5; 32]).unwrap(), HashMap::from([(1, [1; 4])]));
}

#[test]
fn chats_without_listeners_tell_nobody() {
    let mut context = OwnedContext::new([0; 32]);
    context.push_chat_event([5; 32], &vec![], |_| panic!("told"));
    assert!(context.chat_subs.is_empty());
}

#[test]
fn mail_goes_to_the_listener_of_the_profile() {
    let mut context = OwnedContext::new([0; 32]);
    assert!(!context.push_profile_event([5; 32], vec![1], |_, _| panic!("told")));
    context.profile_subs.insert([5; 32], (9, [7; 4]));
    let delivered = context.push_profile_event([5; 32], vec![1], |path, event| {
        let ClientEvent::Sub(call, mail) = event;
        assert_eq!((path, call, mail), (9, [7; 4], vec![1]));
        Delivery::Sent
    });
    assert!(delivered);
    assert!(!context.push_profile_event([5; 32], vec![1], |_, _| Delivery::NoClient));
    assert!(context.profile_subs.contains_key(&[5; 32]));
    assert!(!context.push_profile_event([5; 32], vec![1], |_, _| Delivery::Refused));
    assert!(!context.profile_subs.contains_key(&[5; 32]));
}

#[test]
fn groups_are_shown_to_members_alone() {
    let context = OwnedContext::new([1; 32]);
    let group = vec![[3; 32], [1; 32], [2; 32]];
    assert_eq!(context.get_others(&group, 3), Some(vec![[3; 32], [2; 32]]));
    assert_eq!(OwnedContext::get_others_for(&group, 3, [9; 32]), None);
    assert_eq!(OwnedContext::get_others_for(&group, 4, [9; 32]), Some(group.clone()));
    assert_eq!(OwnedContext::get_others_for(&vec![], 3, [9; 32]), Some(vec![]));
}

#[test]
fn members_are_asked_with_a_header_that_announces_the_message() {
    let context = OwnedContext::new([1; 32]);
    let group = vec![[1; 32], [2; 32]];
    let (peers, header) =
        context.repl_rpc_low::<()>(&group, 2, Topic::Chat([4; 32]), 8, 258).unwrap();
    assert_eq!(peers, vec![[2; 32]]);
    assert_eq!((header.prefix, header.call_id, header.len), (8, [0; 4], [0, 0, 1, 2]));
    let stranger = OwnedContext::new([9; 32]);
    assert_eq!(
        stranger.repl_rpc_low::<()>(&group, 2, Topic::Chat([4; 32]), 8, 258).unwrap_err(),
        ChatError::NoReplicator
    );
}

#[test]
fn peer_without_stream_is_no_replicator() {
    let topic = Topic::Profile([4; 32]);
    let (stream, header) =
        OwnedContext::send_rpc::<_, ()>(topic, 3, 5, Some("stream")).unwrap();
    assert_eq!((stream, header.prefix, header.get_len()), ("stream", 3, 5));
    assert_eq!(
        OwnedContext::send_rpc::<(), ()>(topic, 3, 5, None).unwrap_err(),
        ChatError::NoReplicator
    );
}

#[test]
fn streams_with_a_whole_reply_are_put_away() {
    let mut context = OwnedContext::new([0; 32]);
    let decode = |bytes: Vec<u8>| bytes.first().copied();
    let mut reply = |peer: u8, stream, reply: Reply<&'static str>| {
        context.rpc_reply([peer; 32], stream, 0, reply, decode)
    };
    assert_eq!(reply(1, 7, Reply::Body(vec![5])), (Ok(5), true));
    assert_eq!(reply(2, 8, Reply::Body(vec![])), (Err(ChatError::InvalidResponse), true));
    assert_eq!(reply(3, 9, Reply::Failed("reset")), (Err(ChatError::Other("reset")), false));
    assert_eq!(reply(3, 9, Reply::TimedOut), (Err(ChatError::Timeout), false));
    assert_eq!(context.open_stream_with([1; 32], 1), Some(7));
    assert_eq!(context.open_stream_with([2; 32], 1), Some(8));
    assert_eq!(context.open_stream_with([3; 32], 1), None);
}

#[test]
fn streams_of_silent_requests_are_put_away() {
    let mut context = OwnedContext::new([0; 32]);
    let kept = context.settle(&vec![([1; 32], 7), ([2; 32], 8), ([1; 32], 9)], 0);
    assert_eq!(kept, vec![true; 3]);
    assert_eq!(context.open_stream_with([1; 32], 0), Some(9));
    assert_eq!(context.open_stream_with([1; 32], 0), Some(7));
    assert_eq!(context.open_stream_with([2; 32], 0), Some(8));
}

#[test]
fn streams_that_opened_are_paired_with_their_peers() {
    let peers = vec![[1; 32], [2; 32], [3; 32]];
    let opened = pair_streams(&peers, vec![Some('a'), None, Some('c')]);
    assert_eq!(opened, vec![([1; 32], 'a'), ([3; 32], 'c')]);
}

#[test]
fn unknown_topics_are_recovered() {
    let profile = Topic::Profile([1; 32]);
    let chat = Topic::Chat([2; 32]);
    let is_known = |id: [u8; 32]| id == [1; 32];
    assert!(!OwnedContext::should_recover(profile, is_known, |_| panic!("chat")));
    assert!(OwnedContext::should_recover(chat, |_| panic!("profile"), is_known));
}

#[test]
fn streams_without_room_are_not_kept() {
    let mut context = OwnedContext::new([0; 32]);
    let kept = context.settle(&vec![([1; 32], 7); 12], 0);
    assert_eq!(kept, [vec![true; 10], vec![false; 2]].concat());
    let decode = |bytes: Vec<u8>| Some(bytes.len());
    let reply: Reply<()> = Reply::Body(vec![5]);
    assert_eq!(context.rpc_reply([1; 32], 8, 0, reply, decode), (Ok(1), false));
}

#[test]
fn replies_are_given_up_after_the_configured_time() {
    let late = 10 + 250 * 1_000_000;
    assert!(matches!(
        await_reply::<()>(None, 10, 10, 250),
        ReplyStep::Wait(left) if left == 250_000_000
    ));
    assert!(matches!(await_reply::<()>(None, 10, late - 1, 250), ReplyStep::Wait(1)));
    assert!(matches!(
        await_reply::<()>(None, 10, late, 250),
        ReplyStep::Done(Reply::TimedOut)
    ));
    assert!(matches!(
        await_reply::<()>(Some(Reply::Body(vec![3])), 10, late, 250),
        ReplyStep::Done(Reply::Body(body)) if body == vec![3]
    ));
    assert!(matches!(
        await_reply::<()>(None, 0, u64::MAX, u64::MAX),
        ReplyStep::Wait(left) if left == u64::MAX as u128 * 999_999
    ));
    assert!(matches!(
        await_reply::<()>(None, 5, 5, 0),
        ReplyStep::Done(Reply::TimedOut)
    ));
}

#[test]
fn silent_peer_fails_its_request() {
    let mut context = OwnedContext::new([0; 32]);
    let ReplyStep::Done(reply) = await_reply::<&str>(None, 0, 2_000_000_000, 2000) else {
        panic!("still waiting")
    };
    let outcome = context.rpc_reply([1; 32], 7, 0, reply, |_| -> Option<u8> { panic!("decoded") });
    assert_eq!(outcome, (Err(ChatError::Timeout), false));
}

#[test]
fn replies_of_all_members_are_concluded() {
    let all = vec![([1; 32], Ok('a')), ([2; 32], Ok('b'))];
    assert_eq!(conclude_replies::<_, ()>(all), Ok(vec![([1; 32], 'a'), ([2; 32], 'b')]));
    assert_eq!(conclude_replies::<u8, ()>(vec![]), Ok(vec![]));
}

#[test]
fn one_failed_reply_fails_the_whole() {
    let some = vec![
        ([1; 32], Ok('a')),
        ([2; 32], Err(ChatError::Other("reset"))),
        ([3; 32], Err(ChatError::Timeout)),
        ([4; 32], Ok('d')),
    ];
    assert_eq!(conclude_replies(some), Err(ChatError::Other("reset")));
}
