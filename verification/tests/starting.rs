use orion::boot::{
    BootError, BootPhase, ChatSearch, Collecting, FetchedVault, Fetching, ProfileOpening,
    RouteStep, VaultLoading,
};
use orion::ids::Topic;
use orion::keys::Profile;
use orion::node::{Node, RawOnionRequest, RequestInit};

const OWN: Profile = Profile { sign: [5; 32], enc: [2; 32] };

fn unreported(phase: BootPhase) {
    panic!("reported {phase:?}")
}

fn collecting(node_count: usize, log: &mut Vec<BootPhase>) -> Collecting {
    Fetching::start(OWN, |phase| log.push(phase))
        .fetched(Some(OWN), node_count, |phase| log.push(phase))
        .ok()
        .unwrap()
        .connected(0, |phase| log.push(phase))
}

fn opening(log: &mut Vec<BootPhase>) -> ProfileOpening {
    collecting(9, log)
        .collected(5, 5, &vec![[1; 32]], 1, |phase| log.push(phase), |peer| {
            assert_eq!(peer, [1; 32]);
            1
        })
        .ok()
        .unwrap()
}

fn loading(log: &mut Vec<BootPhase>) -> VaultLoading {
    match opening(log).outbound_stream(1, true, |phase| log.push(phase)) {
        RouteStep::Load(loading) => loading,
        _ => panic!("not loading"),
    }
}

#[test]
fn phases_are_numbered_in_order() {
    let phases = [
        BootPhase::FetchNodesAndProfile,
        BootPhase::InitiateConnection,
        BootPhase::CollecringKeys(3),
        BootPhase::ProfileOpen,
        BootPhase::VaultLoad,
        BootPhase::ProfileCreate,
        BootPhase::ChatSearch,
        BootPhase::ChatRun,
    ];
    for (number, phase) in phases.iter().enumerate() {
        assert_eq!(phase.discriminant() as usize, number);
    }
}

#[test]
fn phases_read_well() {
    let texts = [
        (BootPhase::FetchNodesAndProfile, "fetching nodes and profile from chain..."),
        (BootPhase::InitiateConnection, "initiating orion connection..."),
        (BootPhase::CollecringKeys(0), "collecting server keys... (0 left)"),
        (BootPhase::CollecringKeys(120), "collecting server keys... (120 left)"),
        (BootPhase::ProfileOpen, "opening route to profile..."),
        (BootPhase::VaultLoad, "loading vault..."),
        (BootPhase::ProfileCreate, "creating new profile..."),
        (BootPhase::ChatSearch, "searching chats..."),
        (BootPhase::ChatRun, "ready"),
    ];
    for (phase, text) in texts {
        assert_eq!(phase.message(), text);
    }
}

#[test]
fn errors_read_well() {
    let texts = [
        (BootError::ProfileNotFound, "profile not found"),
        (BootError::ProfileMismatch, "profile hash does not match our account"),
        (
            BootError::NotEnoughNodes { needed: 5, got: 12 },
            "not enough nodes in network, needed 5, got 12",
        ),
        (BootError::ProfileRoute, "opening profile route"),
        (BootError::ChatRoute, "opening chat subscription route"),
    ];
    for (error, text) in texts {
        assert_eq!(error.message(), text);
    }
}

#[test]
fn profile_on_chain_has_to_be_our_own() {
    let fetching = || Fetching::start(OWN, |_| {});
    assert_eq!(fetching().fetched(None, 3, unreported).err(), Some(BootError::ProfileNotFound));
    let mut reported = None;
    let connecting =
        fetching().fetched(Some(OWN), 3, |phase| reported = Some(phase)).ok().unwrap();
    assert_eq!(reported, Some(BootPhase::InitiateConnection));
    let collecting = connecting.connected(0, |_| {});
    let found = collecting.profile();
    assert_eq!((found.sign, found.enc), (OWN.sign, OWN.enc));
    assert_eq!(collecting.node_count(), 3);
    for other in
        [Profile { sign: OWN.sign, enc: [3; 32] }, Profile { sign: [3; 32], enc: OWN.enc }]
    {
        let refused = fetching().fetched(Some(other), 3, unreported).err();
        assert_eq!(refused, Some(BootError::ProfileMismatch));
    }
}

#[test]
fn keys_are_counted_down() {
    let mut log = Vec::new();
    let mut collecting = collecting(5, &mut log);
    assert!(!collecting.progress(4, |phase| log.push(phase)));
    assert!(!collecting.progress(4, |phase| log.push(phase)));
    assert!(collecting.progress(5, |phase| log.push(phase)));
    let left: Vec<BootPhase> = [5, 1, 1, 0].map(BootPhase::CollecringKeys).into();
    assert_eq!(log[2..], left);
    let mut nobody = self::collecting(0, &mut log);
    assert!(nobody.progress(0, |phase| log.push(phase)));
    assert_eq!(log.last(), Some(&BootPhase::CollecringKeys(0)));
}

#[test]
fn too_few_nodes_end_the_start() {
    for closest in [vec![[1; 32]], vec![]] {
        let collecting = collecting(9, &mut Vec::new());
        let refused =
            collecting.collected(4, 5, &closest, 2, unreported, |_| panic!("opened"));
        assert_eq!(refused.err(), Some(BootError::NotEnoughNodes { needed: 5, got: 4 }));
    }
}

#[test]
fn profile_node_is_one_of_the_closest() {
    let closest = vec![[1; 32], [2; 32], [3; 32]];
    for _ in 0..50 {
        let mut log = Vec::new();
        let collecting = collecting(9, &mut log);
        let mut target = [0; 32];
        let opening = collecting
            .collected(5, 5, &closest, 2, |phase| log.push(phase), |peer: [u8; 32]| {
                target = peer;
                40 + peer[0] as u64
            })
            .ok()
            .unwrap();
        assert!([[1; 32], [2; 32]].contains(&target));
        assert_eq!(log.last(), Some(&BootPhase::ProfileOpen));
        let step = opening.outbound_stream(40 + target[0] as u64, true, |_| {});
        let RouteStep::Load(loading) = step else { panic!("not loading") };
        let planning = loading.fetched(None, |_| {});
        assert_eq!((planning.peer(), planning.path()), (target, 40 + target[0] as u64));
    }
}

#[test]
fn only_the_awaited_profile_route_counts() {
    let mut log = Vec::new();
    let mut waiting = opening(&mut log);
    for opened in [true, false] {
        let RouteStep::Wait(still) = waiting.outbound_stream(2, opened, unreported) else {
            panic!("not waiting")
        };
        waiting = still;
    }
    let RouteStep::Load(loading) = waiting.outbound_stream(1, true, |phase| log.push(phase)) else {
        panic!("not loading")
    };
    assert_eq!(log.last(), Some(&BootPhase::VaultLoad));
    assert!(matches!(loading.topic(), Topic::Profile(user) if user == OWN.sign));
    let step = opening(&mut log).outbound_stream(1, false, unreported);
    assert!(matches!(step, RouteStep::Fail(BootError::ProfileRoute)));
}

#[test]
fn loaded_vault_decides_what_comes_next() {
    let mut log = Vec::new();
    let new = loading(&mut log).fetched(None, |phase| log.push(phase));
    assert_eq!(log.last(), Some(&BootPhase::ProfileCreate));
    let creation = new.creation().unwrap();
    assert!(matches!(creation.topic, Topic::Profile(user) if user == OWN.sign));
    assert_eq!((creation.nonce, creation.context), (0, [0; 32]));
    let known = loading(&mut log).fetched(Some((0, 0, vec![])), unreported);
    assert!(known.creation().is_none());
    assert_eq!((known.path(), known.peer(), known.vault().vault_nonce), (1, [1; 32], 1));
}

#[test]
fn start_goes_through_the_phases_in_order() {
    for (vault, creates) in [(None, true), (Some((3, 4, vec![])), false)] {
        let mut log = Vec::new();
        let mut collecting = collecting(2, &mut log);
        collecting.progress(1, |phase| log.push(phase));
        let opening = collecting
            .collected(1, 1, &vec![[1; 32]], 1, |phase| log.push(phase), |_| 1)
            .ok()
            .unwrap();
        let RouteStep::Load(loading) = opening.outbound_stream(1, true, |phase| log.push(phase))
        else {
            panic!("not loading")
        };
        let planning = loading.fetched(vault, |phase| log.push(phase));
        let search: ChatSearch<()> =
            planning.search(&vec![], 1, |phase| log.push(phase), |nodes| {
                assert!(nodes.is_empty());
                vec![]
            });
        assert!(search.is_done());
        let _: Node<(), (), ()> = search.into_node(|phase| log.push(phase));
        let mut expected = vec![
            BootPhase::FetchNodesAndProfile,
            BootPhase::InitiateConnection,
            BootPhase::CollecringKeys(2),
            BootPhase::CollecringKeys(1),
            BootPhase::ProfileOpen,
            BootPhase::VaultLoad,
            BootPhase::ProfileCreate,
            BootPhase::ChatSearch,
            BootPhase::ChatRun,
        ];
        expected.retain(|phase| creates || *phase != BootPhase::ProfileCreate);
        assert_eq!(log, expected);
    }
}

#[test]
fn vault_numbers_move_on() {
    let vault = FetchedVault::new(Some((4, 7, vec![([1; 32], vec![1])])));
    assert_eq!((vault.vault_nonce, vault.mail_action), (5, 8));
    assert_eq!(vault.entries, vec![([1; 32], vec![1])]);
    assert!(!vault.needs_profile());
    assert_eq!(vault.first_mail_action(), 8);
}

#[test]
fn profile_is_created_where_there_is_no_vault() {
    let vault = FetchedVault::new(None);
    assert_eq!((vault.vault_nonce, vault.mail_action), (0, 0));
    assert!(vault.needs_profile());
    assert_eq!(vault.first_mail_action(), 1);
    assert!(!FetchedVault::new(Some((0, 0, vec![]))).needs_profile());
}

fn search() -> ChatSearch<&'static str> {
    let members = vec![
        ([6; 32], vec![[1; 32], [3; 32]]),
        ([7; 32], vec![[2; 32]]),
        ([8; 32], vec![[2; 32]]),
        ([9; 32], vec![[3; 32]]),
        ([10; 32], vec![[2; 32]]),
    ];
    loading(&mut Vec::new()).fetched(None, |_| {}).search(
        &members,
        2,
        |_| {},
        |nodes: Vec<[u8; 32]>| {
            assert_eq!(nodes, vec![[2; 32], [3; 32]]);
            nodes.iter().map(|peer| 8 + peer[0] as u64).collect()
        },
    )
}

#[test]
fn paths_are_opened_to_the_planned_nodes() {
    let search = search();
    assert_eq!(
        *search.awaiting(),
        vec![
            (10, [2; 32], vec![[7; 32], [8; 32], [10; 32]]),
            (11, [3; 32], vec![[6; 32], [9; 32]])
        ]
    );
}

#[test]
fn profile_path_serves_profile_and_riding_chats() {
    let search = search();
    let profile = &search.paths()[0];
    assert_eq!((profile.id, profile.peer_id), (1, [1; 32]));
    assert!(matches!(
        profile.topics[..],
        [Topic::Profile(user), Topic::Chat(chat)] if user == [5; 32] && chat == [6; 32]
    ));
    assert!(profile.subscriptions.is_empty());
}

fn came_up(
    search: ChatSearch<&'static str>,
    id: u64,
    expected: bool,
) -> ChatSearch<&'static str> {
    let (search, known) = search.outbound_stream(id, true).ok().unwrap();
    assert_eq!(known, expected);
    search
}

#[test]
fn awaited_paths_come_to_serve_their_chats() {
    let search = came_up(search(), 99, false);
    assert!(!search.is_done());
    let search = came_up(search, 11, true);
    let search = came_up(search, 11, false);
    let search = came_up(search, 10, true);
    assert!(search.is_done());
    let mut node: Node<&str, &str, ()> = search.into_node(|_| {});
    assert_eq!(node.paths().iter().map(|s| s.id).collect::<Vec<_>>(), vec![10, 11, 1]);
    assert!(matches!(
        node.paths()[0].topics[..],
        [Topic::Chat(a), Topic::Chat(b), Topic::Chat(_)] if a == [7; 32] && b == [8; 32]
    ));
    let ask = RequestInit::OnionRequest(RawOnionRequest {
        id: 1,
        topic: Some(Topic::Chat([8; 32])),
        prefix: 0,
        payload: vec![],
        response: "asker",
    });
    let write = node.command(ask, 0, |_| panic!("searched"), |_| panic!("opened"));
    assert_eq!(write.unwrap().0, 10);
}

#[test]
fn running_client_follows_the_plan() {
    for order in [[10, 11], [11, 10]] {
        let search = came_up(came_up(search(), order[0], true), order[1], true);
        let node: Node<&str, &str, ()> = search.into_node(|_| {});
        let (profile, others) = node.paths().split_last().unwrap();
        assert_eq!((profile.id, profile.peer_id), (1, [1; 32]));
        let mut shares: Vec<_> = others
            .iter()
            .flat_map(|path| path.topics.iter().map(|topic| (topic, path.peer_id)))
            .map(|(topic, peer)| match topic {
                Topic::Chat(chat) => (chat[0], peer[0]),
                Topic::Profile(_) => panic!("a profile among the chats"),
            })
            .collect();
        shares.sort();
        assert_eq!(shares, vec![(6, 3), (7, 2), (8, 2), (9, 3), (10, 2)]);
    }
}

#[test]
fn riding_chat_is_asked_of_its_own_path() {
    let search = came_up(came_up(search(), 10, true), 11, true);
    let mut node: Node<&str, &str, ()> = search.into_node(|_| {});
    let ask = RequestInit::OnionRequest(RawOnionRequest {
        id: 1,
        topic: Some(Topic::Chat([6; 32])),
        prefix: 0,
        payload: vec![],
        response: "asker",
    });
    let write = node.command(ask, 0, |_| panic!("searched"), |_| panic!("opened"));
    assert_eq!(write.unwrap().0, 11);
}

#[test]
fn awaited_path_that_fails_ends_the_start() {
    let (search, expected) = search().outbound_stream(99, false).ok().unwrap();
    assert!(!expected);
    assert_eq!(search.outbound_stream(10, false).err(), Some(BootError::ChatRoute));
}
