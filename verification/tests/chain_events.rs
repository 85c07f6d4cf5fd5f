use orion::chain::NodeEvent;
use orion::net::SocketAddr;
use orion::polkadot::{
    after_stake, after_votes, block_events, node_event, node_of_key, subscription,
    wait_for_in_block, BlockEvent, RuntimeEvent, StakerEvent, TxError, TxStatus, TxStep, VoteStep,
};

const ADDR: SocketAddr = SocketAddr::V4 { ip: [1, 2, 3, 4], port: 5 };

fn of(pallet: &str, event: RuntimeEvent) -> BlockEvent<&'static str> {
    Ok((pallet.to_owned(), Ok(event)))
}

fn staking(event: StakerEvent) -> BlockEvent<&'static str> {
    of("chatStaker", RuntimeEvent::ChatStaker(event))
}

fn block() -> Vec<BlockEvent<&'static str>> {
    vec![
        staking(StakerEvent::Joined { identity: [1; 32], addr: ADDR }),
        of("balances", RuntimeEvent::Other),
        of("satelliteStaker", RuntimeEvent::ChatStaker(StakerEvent::Reclaimed { identity: [9; 32] })),
        of("chatStaker", RuntimeEvent::Other),
        staking(StakerEvent::Voted { source: [2; 32], target: [3; 32] }),
        Ok(("balances".to_owned(), Err("not decoded"))),
        staking(StakerEvent::Reclaimed { identity: [4; 32] }),
    ]
}

#[test]
fn staking_events_mean_something_for_nodes() {
    assert!(matches!(
        node_event(StakerEvent::Joined { identity: [1; 32], addr: ADDR }),
        NodeEvent::Join { node, addr } if node == [1; 32] && addr.port() == 5
    ));
    assert!(matches!(
        node_event(StakerEvent::AddrChanged { identity: [1; 32], addr: ADDR }),
        NodeEvent::AddrChanged { node, addr } if node == [1; 32] && addr.port() == 5
    ));
    assert!(matches!(
        node_event(StakerEvent::Reclaimed { identity: [1; 32] }),
        NodeEvent::Left { node } if node == [1; 32]
    ));
    assert!(matches!(
        node_event(StakerEvent::Voted { source: [1; 32], target: [2; 32] }),
        NodeEvent::Voted { source, target } if source == [1; 32] && target == [2; 32]
    ));
}

#[test]
fn other_pallets_are_passed_over() {
    let reports = block_events(block(), true);
    assert_eq!(reports.len(), 3);
    assert!(matches!(reports[0], Ok(NodeEvent::Join { .. })));
    assert!(matches!(reports[1], Ok(NodeEvent::Voted { .. })));
    assert!(matches!(reports[2], Ok(NodeEvent::Left { node }) if node == [4; 32]));
}

#[test]
fn votes_are_reported_where_wanted() {
    let reports = block_events(block(), false);
    assert_eq!(reports.len(), 2);
    assert!(matches!(reports[1], Ok(NodeEvent::Left { .. })));
}

#[test]
fn errors_are_reported_in_place() {
    let events = vec![
        Err("unreadable"),
        Ok(("chatStaker".to_owned(), Err("not decoded"))),
        staking(StakerEvent::Reclaimed { identity: [4; 32] }),
    ];
    let reports = block_events(events, false);
    assert!(matches!(reports[0], Err("unreadable")));
    assert!(matches!(reports[1], Err("not decoded")));
    assert!(matches!(reports[2], Ok(NodeEvent::Left { .. })));
}

#[test]
fn blocks_are_reported_in_turn() {
    let mut both = block();
    both.extend(block());
    let reports = block_events(both, true);
    assert_eq!(reports.len(), 6);
    assert!(matches!(reports[3], Ok(NodeEvent::Join { .. })));
}

#[test]
fn nobody_votes_twice() {
    assert_eq!(after_votes(&None, &[1; 32]), VoteStep::LookUpStake);
    assert_eq!(after_votes(&Some(vec![[2; 32]]), &[1; 32]), VoteStep::LookUpStake);
    assert_eq!(after_votes(&Some(vec![[2; 32], [1; 32]]), &[1; 32]), VoteStep::Skip);
}

#[test]
fn protected_nodes_are_not_voted_against() {
    assert_eq!(after_stake(None, 10), VoteStep::Skip);
    assert_eq!(after_stake(Some(11), 10), VoteStep::Skip);
    assert_eq!(after_stake(Some(10), 10), VoteStep::Vote);
    assert_eq!(after_stake(Some(9), 10), VoteStep::Vote);
}

#[test]
fn node_stands_behind_the_hashes_of_its_key() {
    let mut key = vec![0xFF; 48];
    let node: Vec<u8> = (1..=32).collect();
    key.extend(&node);
    assert_eq!(node_of_key(&key).to_vec(), node);
}

#[test]
fn subscriptions_keep_owner_funds_and_time() {
    let sub = subscription([7; 32], 1 << 100, 42);
    assert_eq!((sub.topic, sub.amount, sub.timetsmp), ([7; 32], 1 << 100, 42));
}

#[test]
fn first_final_state_of_a_transaction_decides() {
    assert!(matches!(wait_for_in_block::<()>(Some(Ok(TxStatus::Pending))), TxStep::Wait));
    assert!(matches!(
        wait_for_in_block::<()>(Some(Ok(TxStatus::InFinalizedBlock))),
        TxStep::CheckSuccess
    ));
    assert!(matches!(
        wait_for_in_block::<()>(Some(Ok(TxStatus::Error { message: "e".to_owned() }))),
        TxStep::Fail(TxError::Error(message)) if message == "e"
    ));
    assert!(matches!(
        wait_for_in_block::<()>(Some(Ok(TxStatus::Invalid { message: "i".to_owned() }))),
        TxStep::Fail(TxError::Invalid(message)) if message == "i"
    ));
    assert!(matches!(
        wait_for_in_block::<()>(Some(Ok(TxStatus::Dropped { message: "d".to_owned() }))),
        TxStep::Fail(TxError::Dropped(message)) if message == "d"
    ));
    assert!(matches!(wait_for_in_block(Some(Err(3))), TxStep::Fail(TxError::Chain(3))));
    assert!(matches!(wait_for_in_block::<()>(None), TxStep::Fail(TxError::Unknown)));
}

#[test]
fn states_behind_the_deciding_one_do_not_count() {
    let run = |states: Vec<Option<Result<TxStatus, u8>>>| {
        states.into_iter().map(wait_for_in_block).find(|step| !matches!(step, TxStep::Wait))
    };
    let pending = || Some(Ok(TxStatus::Pending));
    let dropped = || Some(Ok(TxStatus::Dropped { message: "d".to_owned() }));
    let finalized = || Some(Ok(TxStatus::InFinalizedBlock));
    let decided = run(vec![pending(), pending(), finalized(), dropped(), None]);
    assert!(matches!(decided, Some(TxStep::CheckSuccess)));
    let decided = run(vec![pending(), dropped(), finalized()]);
    assert!(matches!(decided, Some(TxStep::Fail(TxError::Dropped(message))) if message == "d"));
    assert!(matches!(
        run(vec![pending(), Some(Err(7)), finalized()]),
        Some(TxStep::Fail(TxError::Chain(7)))
    ));
    assert!(matches!(run(vec![pending(), None]), Some(TxStep::Fail(TxError::Unknown))));
    assert!(run(vec![pending(), pending()]).is_none());
}
