//! What the chain process makes of the chain: events of the staking pallet,
//! votes against nodes, keys of the node list and the fate of a transaction.

use crate::chain::{Balance, NodeEvent, Subscription, Timestamp};
use crate::ids::{contains_id, NodeId};
use crate::net::SocketAddr;
use vstd::prelude::*;

verus! {

/// An event of the staking pallet.
#[derive(Clone, Copy, Debug)]
pub enum StakerEvent {
    Joined { identity: NodeId, addr: SocketAddr },
    AddrChanged { identity: NodeId, addr: SocketAddr },
    Reclaimed { identity: NodeId },
    Voted { source: NodeId, target: NodeId },
}

/// An event of the chain.
#[derive(Clone, Copy, Debug)]
pub enum RuntimeEvent {
    ChatStaker(StakerEvent),
    /// An event of some other pallet.
    Other,
}

/// What a staking event means for the nodes.
pub open spec fn meaning(event: StakerEvent) -> NodeEvent {
    match event {
        StakerEvent::Joined { identity, addr } => NodeEvent::Join { node: identity, addr },
        StakerEvent::AddrChanged { identity, addr } => NodeEvent::AddrChanged {
            node: identity,
            addr,
        },
        StakerEvent::Reclaimed { identity } => NodeEvent::Left { node: identity },
        StakerEvent::Voted { source, target } => NodeEvent::Voted { source, target },
    }
}

/// What a staking event means for the nodes.
pub fn node_event(event: StakerEvent) -> (meant: NodeEvent)
    ensures
        meant == meaning(event),
{
    match event {
        StakerEvent::Joined { identity, addr } => NodeEvent::Join { node: identity, addr },
        StakerEvent::AddrChanged { identity, addr } => NodeEvent::AddrChanged {
            node: identity,
            addr,
        },
        StakerEvent::Reclaimed { identity } => NodeEvent::Left { node: identity },
        StakerEvent::Voted { source, target } => NodeEvent::Voted { source, target },
    }
}

/// An event of a block: the pallet it names and what it decodes to, or why it
/// could not be read.
pub type BlockEvent<E> = Result<(String, Result<RuntimeEvent, E>), E>;

/// What is reported of one event. Events of other pallets are passed over, and
/// so are votes where they are not wanted. An event that cannot be read is
/// reported as the error, and so is one of the staking pallet that cannot be
/// decoded.
pub open spec fn report_of<E>(event: BlockEvent<E>, votes: bool) -> Option<Result<NodeEvent, E>> {
    match event {
        Err(error) => Some(Err(error)),
        Ok((pallet, root)) => if pallet@ != "chatStaker"@ {
            None
        } else {
            match root {
                Err(error) => Some(Err(error)),
                Ok(RuntimeEvent::Other) => None,
                Ok(RuntimeEvent::ChatStaker(event)) => if event is Voted && !votes {
                    None
                } else {
                    Some(Ok(meaning(event)))
                },
            }
        },
    }
}

/// What is reported of the events of a block, in order.
pub open spec fn reports_of<E>(events: Seq<BlockEvent<E>>, votes: bool) -> Seq<
    Result<NodeEvent, E>,
>
    decreases events.len(),
{
    if events.len() == 0 {
        Seq::empty()
    } else {
        let before = reports_of(events.drop_last(), votes);
        match report_of(events.last(), votes) {
            Some(report) => before.push(report),
            None => before,
        }
    }
}

/// What is reported of one event of a block.
fn report<E>(event: BlockEvent<E>, votes: bool) -> (report: Option<Result<NodeEvent, E>>)
    ensures
        report == report_of(event, votes),
{
    match event {
        Err(error) => Some(Err(error)),
        Ok((pallet, root)) => {
            if pallet != "chatStaker".to_owned() {
                return None;
            }
            match root {
                Err(error) => Some(Err(error)),
                Ok(RuntimeEvent::Other) => None,
                Ok(RuntimeEvent::ChatStaker(event)) => match event {
                    StakerEvent::Voted { .. } => if votes {
                        Some(Ok(node_event(event)))
                    } else {
                        None
                    },
                    _ => Some(Ok(node_event(event))),
                },
            }
        },
    }
}

/// What is reported of the events of a block, in order. Votes are reported
/// where `votes` says so.
pub fn block_events<E>(events: Vec<BlockEvent<E>>, votes: bool) -> (reports: Vec<
    Result<NodeEvent, E>,
>)
    ensures
        reports@ == reports_of(events@, votes),
{
    let ghost all = events@;
    let mut reports: Vec<Result<NodeEvent, E>> = Vec::new();
    for event in it: events
        invariant
            it.seq() == all,
            reports@ == reports_of(all.take(it.index() as int), votes),
    {
        proof {
            assert(all.take(it.index() + 1).drop_last() =~= all.take(it.index() as int));
            assert(all.take(it.index() + 1).last() == event);
        }
        match report(event, votes) {
            Some(one) => {
                reports.push(one);
            },
            None => {},
        }
    }
    assert(all.take(all.len() as int) =~= all);
    reports
}

/// The events of a block that is followed by others are reported in front of
/// theirs, and independently of them.
pub proof fn lemma_blocks_reported_in_turn<E>(
    block: Seq<BlockEvent<E>>,
    later: Seq<BlockEvent<E>>,
    votes: bool,
)
    ensures
        reports_of(block + later, votes) == reports_of(block, votes) + reports_of(later, votes),
    decreases later.len(),
{
    if later.len() == 0 {
        assert(block + later =~= block);
        assert(reports_of(block, votes) + reports_of(later, votes) =~= reports_of(block, votes));
    } else {
        let shorter = later.drop_last();
        lemma_blocks_reported_in_turn(block, shorter, votes);
        assert((block + later).drop_last() =~= block + shorter);
        assert(reports_of(block + later, votes) =~= reports_of(block, votes) + reports_of(
            later,
            votes,
        ));
    }
}

/// A subscription as the chain stores it: owner, funds and time of creation.
pub fn subscription(owner: [u8; 32], funds: Balance, created_at: Timestamp) -> (sub: Subscription)
    ensures
        sub == (Subscription { topic: owner, amount: funds, timetsmp: created_at }),
{
    Subscription { topic: owner, amount: funds, timetsmp: created_at }
}

/// What to do next about a vote against a node.
#[derive(Clone, Copy, Debug, PartialEq, Eq, Structural)]
pub enum VoteStep {
    /// Nothing: the vote is not possible.
    Skip,
    /// Look up the stake of the node and the number of the latest block.
    LookUpStake,
    /// Vote.
    Vote,
}

/// What to do about a vote by `source`, given those who voted already: nobody
/// votes twice.
pub open spec fn step_after_votes(votes: Option<Vec<NodeId>>, source: NodeId) -> VoteStep {
    if votes matches Some(voters) && voters@.contains(source) {
        VoteStep::Skip
    } else {
        VoteStep::LookUpStake
    }
}

/// What to do in block `block_num` about a vote against a node that is protected
/// up to a block, where it has a stake at all.
pub open spec fn step_after_stake(protected_until: Option<u32>, block_num: u32) -> VoteStep {
    if protected_until matches Some(until) && until <= block_num {
        VoteStep::Vote
    } else {
        VoteStep::Skip
    }
}

/// Given those who voted against a node, what to do about a vote by `source`:
/// nobody votes twice.
pub fn after_votes(votes: &Option<Vec<NodeId>>, source: &NodeId) -> (step: VoteStep)
    ensures
        step == step_after_votes(*votes, *source),
{
    match votes {
        Some(voters) => if contains_id(voters, source) {
            VoteStep::Skip
        } else {
            VoteStep::LookUpStake
        },
        None => VoteStep::LookUpStake,
    }
}

/// Given the block up to which a node is protected, where it has a stake at all,
/// whether to vote against it in block `block_num`.
pub fn after_stake(protected_until: Option<u32>, block_num: u32) -> (step: VoteStep)
    ensures
        step == step_after_stake(protected_until, block_num),
{
    match protected_until {
        Some(until) => if until > block_num {
            VoteStep::Skip
        } else {
            VoteStep::Vote
        },
        None => VoteStep::Skip,
    }
}

/// A vote is cast exactly where the source has not voted against the node yet,
/// and the node has a stake that is no longer protected.
pub proof fn lemma_vote_is_possible(
    votes: Option<Vec<NodeId>>,
    source: NodeId,
    protected_until: Option<u32>,
    block_num: u32,
)
    ensures
        step_after_votes(votes, source) == VoteStep::LookUpStake && step_after_stake(
            protected_until,
            block_num,
        ) == VoteStep::Vote <==> {
            &&& votes matches Some(voters) ==> !voters@.contains(source)
            &&& protected_until matches Some(until) && until <= block_num
        },
{
}

/// Calls `parity_scale_codec::Decode::decode` for an array of 32 bytes: it takes
/// the first 32 bytes as they are, and fails where there are fewer.
#[verifier::external_body]
fn scale_decode_id(bytes: &[u8]) -> (id: Option<NodeId>)
    ensures
        id is Some <==> bytes@.len() >= 32,
        id matches Some(id) ==> id@ == bytes@.take(32),
{
    parity_scale_codec::Decode::decode(&mut &*bytes).ok()
}

/// Identity of a node out of the storage key of its address, in which it comes
/// behind 48 bytes of hashes.
pub fn node_of_key(key: &Vec<u8>) -> (node: NodeId)
    requires
        key@.len() >= 80,
    ensures
        node@ == key@.subrange(48, 80),
{
    let rest: &[u8] = vstd::slice::slice_subrange(key.as_slice(), 48, key.len());
    let node: NodeId = scale_decode_id(rest).unwrap();
    assert(rest@.take(32) =~= key@.subrange(48, 80));
    node
}

/// State of a transaction that was submitted.
#[derive(Debug)]
pub enum TxStatus {
    InFinalizedBlock,
    Error { message: String },
    Invalid { message: String },
    Dropped { message: String },
    /// On its way.
    Pending,
}

/// Why a transaction failed.
#[derive(Debug)]
pub enum TxError<E> {
    /// The chain could not be asked.
    Chain(E),
    Error(String),
    Invalid(String),
    Dropped(String),
    /// The states ended without telling.
    Unknown,
}

/// What to do about a transaction after its next state is known.
#[derive(Debug)]
pub enum TxStep<E> {
    /// Wait for the next state.
    Wait,
    /// It is in a block that stays; see whether it succeeded there.
    CheckSuccess,
    Fail(TxError<E>),
}

/// What to do after the next state of a transaction, `None` where there are no
/// more.
pub open spec fn tx_step_of<E>(status: Option<Result<TxStatus, E>>) -> TxStep<E> {
    match status {
        None => TxStep::Fail(TxError::Unknown),
        Some(Err(error)) => TxStep::Fail(TxError::Chain(error)),
        Some(Ok(TxStatus::InFinalizedBlock)) => TxStep::CheckSuccess,
        Some(Ok(TxStatus::Error { message })) => TxStep::Fail(TxError::Error(message)),
        Some(Ok(TxStatus::Invalid { message })) => TxStep::Fail(TxError::Invalid(message)),
        Some(Ok(TxStatus::Dropped { message })) => TxStep::Fail(TxError::Dropped(message)),
        Some(Ok(TxStatus::Pending)) => TxStep::Wait,
    }
}

/// What to do after the next state of a transaction, `None` where there are no
/// more.
pub fn wait_for_in_block<E>(status: Option<Result<TxStatus, E>>) -> (step: TxStep<E>)
    ensures
        step == tx_step_of(status),
{
    match status {
        None => TxStep::Fail(TxError::Unknown),
        Some(Err(error)) => TxStep::Fail(TxError::Chain(error)),
        Some(Ok(TxStatus::InFinalizedBlock)) => TxStep::CheckSuccess,
        Some(Ok(TxStatus::Error { message })) => TxStep::Fail(TxError::Error(message)),
        Some(Ok(TxStatus::Invalid { message })) => TxStep::Fail(TxError::Invalid(message)),
        Some(Ok(TxStatus::Dropped { message })) => TxStep::Fail(TxError::Dropped(message)),
        Some(Ok(TxStatus::Pending)) => TxStep::Wait,
    }
}

/// What comes of a transaction whose states come one after another, as far as they
/// go: the first that does not make the wait go on decides.
pub open spec fn tx_outcome_of<E>(states: Seq<Option<Result<TxStatus, E>>>) -> TxStep<E>
    decreases states.len(),
{
    if states.len() == 0 {
        TxStep::Wait
    } else {
        match tx_step_of(states[0]) {
            TxStep::Wait => tx_outcome_of(states.skip(1)),
            step => step,
        }
    }
}

/// Of the states of a transaction only the first deciding one counts, whatever comes
/// behind it. As long as there is none, the wait goes on.
pub proof fn lemma_first_deciding_state_counts<E>(states: Seq<Option<Result<TxStatus, E>>>, at: int)
    requires
        0 <= at <= states.len(),
        forall|k: int| 0 <= k < at ==> tx_step_of(#[trigger] states[k]) is Wait,
    ensures
        at < states.len() && !(tx_step_of(states[at]) is Wait) ==> tx_outcome_of(states)
            == tx_step_of(states[at]),
        at == states.len() ==> tx_outcome_of(states) is Wait,
    decreases at,
{
    if at > 0 {
        let rest = states.skip(1);
        assert forall|k: int| 0 <= k < at - 1 implies tx_step_of(#[trigger] rest[k]) is Wait by {
            assert(rest[k] == states[k + 1]);
        }
        lemma_first_deciding_state_counts(rest, at - 1);
        assert(tx_step_of(states[0]) is Wait);
        assert(at < states.len() ==> rest[at - 1] == states[at]);
    }
}

/// A transaction succeeds only where it came into a block that stays, and every
/// state in front of that one left it on its way.
pub proof fn lemma_only_finalized_transactions_succeed<E>(
    states: Seq<Option<Result<TxStatus, E>>>,
) -> (at: int)
    requires
        tx_outcome_of(states) is CheckSuccess,
    ensures
        0 <= at < states.len(),
        states[at] matches Some(Ok(status)) && status is InFinalizedBlock,
        forall|k: int|
            0 <= k < at ==> (#[trigger] states[k] matches Some(Ok(status)) && status is Pending),
    decreases states.len(),
{
    if tx_step_of(states[0]) is Wait {
        let rest = states.skip(1);
        let found = lemma_only_finalized_transactions_succeed(rest);
        assert(states[found + 1] == rest[found]);
        assert forall|k: int| 0 <= k < found + 1 implies (#[trigger] states[k] matches Some(
            Ok(status),
        ) && status is Pending) by {
            if k > 0 {
                assert(states[k] == rest[k - 1]);
            }
        }
        found + 1
    } else {
        0
    }
}

/// Nothing is reported of `event`: it comes from another pallet, or means nothing for
/// the nodes, or is a vote where votes are not wanted.
pub open spec fn passed_over<E>(event: BlockEvent<E>, votes: bool) -> bool {
    event matches Ok((pallet, root)) && {
        ||| pallet@ != "chatStaker"@
        ||| root matches Ok(RuntimeEvent::Other)
        ||| !votes && (root matches Ok(RuntimeEvent::ChatStaker(StakerEvent::Voted { .. })))
    }
}

/// `report` says of `event` what happened, of whom and where, or why it cannot be
/// read.
pub open spec fn says_of<E>(report: Result<NodeEvent, E>, event: BlockEvent<E>) -> bool {
    match report {
        Ok(NodeEvent::Join { node, addr }) => event matches Ok((_, Ok(RuntimeEvent::ChatStaker(
            StakerEvent::Joined { identity, addr: at },
        )))) && identity == node && at == addr,
        Ok(NodeEvent::AddrChanged { node, addr }) => event matches Ok((_, Ok(
            RuntimeEvent::ChatStaker(StakerEvent::AddrChanged { identity, addr: at }),
        ))) && identity == node && at == addr,
        Ok(NodeEvent::Left { node }) => event matches Ok((_, Ok(RuntimeEvent::ChatStaker(
            StakerEvent::Reclaimed { identity },
        )))) && identity == node,
        Ok(NodeEvent::Voted { source, target }) => event matches Ok((_, Ok(
            RuntimeEvent::ChatStaker(StakerEvent::Voted { source: by, target: of }),
        ))) && by == source && of == target,
        Err(error) => match event {
            Err(why) => why == error,
            Ok((_, Err(why))) => why == error,
            _ => false,
        },
    }
}

/// `reports` speak of the events at the places `at`, one each and in order, and `at`
/// are the places of all events that are not passed over.
pub open spec fn reported_at<E>(
    events: Seq<BlockEvent<E>>,
    votes: bool,
    reports: Seq<Result<NodeEvent, E>>,
    at: Seq<int>,
) -> bool {
    &&& reports.len() == at.len()
    &&& forall|k: int|
        0 <= k < at.len() ==> {
            &&& 0 <= #[trigger] at[k] < events.len()
            &&& !passed_over(events[at[k]], votes)
            &&& says_of(reports[k], events[at[k]])
        }
    &&& forall|j: int, k: int| 0 <= j < k < at.len() ==> #[trigger] at[j] < #[trigger] at[k]
    &&& forall|i: int|
        0 <= i < events.len() && !passed_over(#[trigger] events[i], votes) ==> at.contains(i)
}

proof fn lemma_reported_at<E>(events: Seq<BlockEvent<E>>, votes: bool) -> (at: Seq<int>)
    ensures
        reported_at(events, votes, reports_of(events, votes), at),
    decreases events.len(),
{
    if events.len() == 0 {
        Seq::empty()
    } else {
        let shorter = events.drop_last();
        let last = events.len() - 1;
        let before = lemma_reported_at(shorter, votes);
        let reports = reports_of(events, votes);
        let at = if passed_over(events[last], votes) {
            before
        } else {
            before.push(last)
        };
        assert forall|k: int| 0 <= k < at.len() implies {
            &&& 0 <= #[trigger] at[k] < events.len()
            &&& !passed_over(events[at[k]], votes)
            &&& says_of(reports[k], events[at[k]])
        } by {
            if k < before.len() {
                assert(0 <= before[k] < shorter.len());
                assert(shorter[before[k]] == events[before[k]]);
            }
        }
        assert forall|i: int|
            0 <= i < events.len() && !passed_over(#[trigger] events[i], votes) implies at.contains(
            i,
        ) by {
            if i < last {
                assert(!passed_over(shorter[i], votes));
                let k = choose|k: int| 0 <= k < before.len() && before[k] == i;
                assert(at[k] == i);
            } else {
                assert(at[before.len() as int] == last);
            }
        }
        at
    }
}

/// Of every event that is not passed over, and of no other, it is reported what
/// happened, in order.
pub proof fn lemma_events_are_reported<E>(events: Vec<BlockEvent<E>>, votes: bool)
    ensures
        forall|reports: Vec<Result<NodeEvent, E>>| #[trigger]
            call_ensures(block_events::<E>, (events, votes), reports) ==> exists|at: Seq<int>|
                #[trigger] reported_at(events@, votes, reports@, at),
{
    let at = lemma_reported_at(events@, votes);
    assert forall|reports: Vec<Result<NodeEvent, E>>| #[trigger]
        call_ensures(block_events::<E>, (events, votes), reports) implies exists|at: Seq<int>|
        #[trigger] reported_at(events@, votes, reports@, at) by {
        assert(reported_at(events@, votes, reports@, at));
    }
}

/// Who joined, moved or left is reported, with the same identity and address, whether
/// or not votes are wanted. A vote is where they are.
pub proof fn lemma_staking_is_reported<E>(
    events: Vec<BlockEvent<E>>,
    votes: bool,
    i: int,
    pallet: String,
    event: StakerEvent,
)
    requires
        0 <= i < events@.len(),
        events@[i] == Ok::<(String, Result<RuntimeEvent, E>), E>(
            (pallet, Ok(RuntimeEvent::ChatStaker(event))),
        ),
        pallet@ == "chatStaker"@,
    ensures
        forall|reports: Vec<Result<NodeEvent, E>>| #[trigger]
            call_ensures(block_events::<E>, (events, votes), reports) ==> match event {
                StakerEvent::Joined { identity, addr } => reports@.contains(
                    Ok(NodeEvent::Join { node: identity, addr }),
                ),
                StakerEvent::AddrChanged { identity, addr } => reports@.contains(
                    Ok(NodeEvent::AddrChanged { node: identity, addr }),
                ),
                StakerEvent::Reclaimed { identity } => reports@.contains(
                    Ok(NodeEvent::Left { node: identity }),
                ),
                StakerEvent::Voted { source, target } => votes ==> reports@.contains(
                    Ok(NodeEvent::Voted { source, target }),
                ),
            },
        forall|meant: NodeEvent| #[trigger]
            call_ensures(node_event, (event,), meant) ==> match event {
                StakerEvent::Joined { identity, addr } => meant == (NodeEvent::Join {
                    node: identity,
                    addr,
                }),
                StakerEvent::AddrChanged { identity, addr } => meant == (NodeEvent::AddrChanged {
                    node: identity,
                    addr,
                }),
                StakerEvent::Reclaimed { identity } => meant == (NodeEvent::Left {
                    node: identity,
                }),
                StakerEvent::Voted { source, target } => meant == (NodeEvent::Voted {
                    source,
                    target,
                }),
            },
{
    let at = lemma_reported_at(events@, votes);
    if !(event is Voted) || votes {
        let reports = reports_of(events@, votes);
        assert(!passed_over(events@[i], votes));
        let k = choose|k: int| 0 <= k < at.len() && at[k] == i;
        assert(0 <= at[k]);
        assert(says_of(reports[k], events@[i]));
        assert(reports.contains(reports[k]));
    }
}

/// Nobody votes twice, and nobody votes against a node that has no stake or is still
/// protected. Everybody else does.
pub proof fn lemma_votes_are_checked(
    voters: Vec<NodeId>,
    source: NodeId,
    until: u32,
    block_num: u32,
)
    ensures
        forall|step: VoteStep| #[trigger]
            call_ensures(after_votes, (&Some(voters), &source), step) ==> if exists|i: int|
                0 <= i < voters@.len() && voters@[i] == source {
                step is Skip
            } else {
                step is LookUpStake
            },
        forall|step: VoteStep| #[trigger]
            call_ensures(after_votes, (&None::<Vec<NodeId>>, &source), step)
                ==> step is LookUpStake,
        forall|step: VoteStep| #[trigger]
            call_ensures(after_stake, (Some(until), block_num), step) ==> if block_num < until {
                step is Skip
            } else {
                step is Vote
            },
        forall|step: VoteStep| #[trigger]
            call_ensures(after_stake, (None::<u32>, block_num), step) ==> step is Skip,
{
}

/// A subscription carries what the chain stores of it. The identity of a node stands
/// in the key of its address, behind 48 bytes.
pub proof fn lemma_read_as_stored(
    owner: [u8; 32],
    funds: Balance,
    created_at: Timestamp,
    key: Vec<u8>,
    i: int,
)
    requires
        0 <= i < 32,
        key@.len() >= 80,
    ensures
        forall|sub: Subscription| #[trigger]
            call_ensures(subscription, (owner, funds, created_at), sub) ==> sub.topic == owner
                && sub.amount == funds && sub.timetsmp == created_at,
        forall|node: NodeId| #[trigger]
            call_ensures(node_of_key, (&key,), node) ==> node@[i] == key@[48 + i],
{
}

/// A transaction is waited for as long as it is on its way. It is checked once it is
/// in a block that stays, and fails with the reason of whatever else becomes of it.
pub proof fn lemma_transaction_followed<E>(message: String, error: E)
    ensures
        forall|step: TxStep<E>| #[trigger]
            call_ensures(wait_for_in_block::<E>, (Some(Ok(TxStatus::Pending)),), step)
                ==> step is Wait,
        forall|step: TxStep<E>| #[trigger]
            call_ensures(wait_for_in_block::<E>, (Some(Ok(TxStatus::InFinalizedBlock)),), step)
                ==> step is CheckSuccess,
        forall|step: TxStep<E>| #[trigger]
            call_ensures(wait_for_in_block::<E>, (Some(Ok(TxStatus::Error { message })),), step)
                ==> (step matches TxStep::Fail(TxError::Error(why)) && why == message),
        forall|step: TxStep<E>| #[trigger]
            call_ensures(wait_for_in_block::<E>, (Some(Ok(TxStatus::Invalid { message })),), step)
                ==> (step matches TxStep::Fail(TxError::Invalid(why)) && why == message),
        forall|step: TxStep<E>| #[trigger]
            call_ensures(wait_for_in_block::<E>, (Some(Ok(TxStatus::Dropped { message })),), step)
                ==> (step matches TxStep::Fail(TxError::Dropped(why)) && why == message),
        forall|step: TxStep<E>| #[trigger]
            call_ensures(wait_for_in_block::<E>, (Some(Err(error)),), step) ==> (
            step matches TxStep::Fail(TxError::Chain(why)) && why == error),
        forall|step: TxStep<E>| #[trigger]
            call_ensures(wait_for_in_block::<E>, (None,), step) ==> (step matches TxStep::Fail(why)
                && why is Unknown),
{
}

} // verus!
