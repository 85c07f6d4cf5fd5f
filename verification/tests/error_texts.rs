use orion::errors::{ChatError, ClientError, DowncastNonce, Failure, NodeError, RecoverMail};

#[test]
fn mail_sent_directly_is_recovered() {
    let sent: Result<(), Failure<&str, ChatError<u8>>> =
        Err(Failure { error: "e", cause: Some(ChatError::SentDirectly) });
    assert!(sent.recover_mail().is_ok());
    let fine: Result<(), Failure<&str, ChatError<u8>>> = Ok(());
    assert!(fine.recover_mail().is_ok());
}

#[test]
fn other_mail_errors_stay() {
    for cause in [
        None,
        Some(ChatError::NoReplicator),
        Some(ChatError::InvalidResponse),
        Some(ChatError::Timeout),
        Some(ChatError::Other(4)),
    ] {
        let failed: Result<(), Failure<&str, ChatError<u8>>> = Err(Failure { error: "e", cause });
        let failure = failed.recover_mail().unwrap_err();
        assert_eq!(failure.error, "e");
        assert_eq!(failure.cause, cause);
    }
}

#[test]
fn wrong_nonces_are_taken_out() {
    let wrong: Result<u8, Failure<&str, ClientError>> =
        Err(Failure { error: "e", cause: Some(ClientError::InvalidNonce(42)) });
    assert_eq!(wrong.downcast_nonce().unwrap(), Err(42));
    let fine: Result<u8, Failure<&str, ClientError>> = Ok(7);
    assert_eq!(fine.downcast_nonce().unwrap(), Ok(7));
}

#[test]
fn other_client_errors_stay() {
    let failed: Result<u8, Failure<&str, ClientError>> =
        Err(Failure { error: "e", cause: Some(ClientError::NotFound) });
    let failure = failed.downcast_nonce().unwrap_err();
    assert_eq!(failure.cause, Some(ClientError::NotFound));
    let failed: Result<u8, Failure<&str, ClientError>> = Err(Failure { error: "f", cause: None });
    assert_eq!(failed.downcast_nonce().unwrap_err().error, "f");
}

#[test]
fn client_errors_read_well() {
    let texts = [
        (ClientError::NotEnoughtNodes, "not enough nodes to store the file"),
        (ClientError::InternalError, "internal error, actual message is logged"),
        (ClientError::NotAllowed, "not allowed"),
        (ClientError::AlreadyRegistered, "already registered"),
        (ClientError::InvalidProof, "invalid proof"),
        (ClientError::YouWonTheLottery, "you won the lottery, now try again"),
        (ClientError::NotFound, "not found"),
        (ClientError::InvalidNonce(1024), "invalid nonce, expected: 1024"),
        (ClientError::NotRegistered, "not registered"),
        (ClientError::ChannelClosed, "channel closed"),
        (ClientError::Timeout, "timeout"),
        (ClientError::InvalidResponse, "invalid response"),
    ];
    for (error, text) in texts {
        assert_eq!(error.message(), text);
    }
}

#[test]
fn node_errors_read_well() {
    let texts = [
        (NodeError::InvalidProof, "invalid proof"),
        (NodeError::AlreadyRegistered, "already registered"),
        (NodeError::NotRegistered, "not registered"),
        (NodeError::InvalidNonce(u64::MAX), "invalid nonce, expected: 18446744073709551615"),
        (NodeError::StoreError, "store thrown unexpected error, actual message is logged"),
        (
            NodeError::InvalidAddress,
            "invalid address, expected ip followed by port in the multiaddr format",
        ),
    ];
    for (error, text) in texts {
        assert_eq!(error.message(), text);
    }
}

#[test]
fn inner_errors_are_not_told() {
    assert_eq!(ClientError::from(anyhow::Error::msg("secret")), ClientError::InternalError);
    assert_eq!(NodeError::from(anyhow::Error::msg("secret")), NodeError::StoreError);
}
