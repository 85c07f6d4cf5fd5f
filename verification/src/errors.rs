//! Errors that travel between nodes, and how callers recover from some of
//! them.

use crate::text;
use vstd::prelude::*;

verus! {

/// Number that orders the signed actions of one user.
pub type Nonce = u64;

/// What can go wrong with a chat request. The errors that nobody here looks into
/// are of type `X` and are handed on as they are.
#[derive(Clone, Copy, Debug, PartialEq, Eq)]
pub enum ChatError<X> {
    /// The mail reached its addressee without being stored.
    SentDirectly,
    /// No replicator of the topic could be reached.
    NoReplicator,
    /// The response did not decode.
    InvalidResponse,
    /// The peer did not answer in time.
    Timeout,
    /// Anything else, a failed connection included.
    Other(X),
}

/// What a storage client can be refused with.
#[derive(Clone, Copy, Debug, PartialEq, Eq, Structural)]
pub enum ClientError {
    NotEnoughtNodes,
    InternalError,
    NotAllowed,
    AlreadyRegistered,
    InvalidProof,
    YouWonTheLottery,
    NotFound,
    InvalidNonce(Nonce),
    NotRegistered,
    ChannelClosed,
    Timeout,
    InvalidResponse,
}

impl ClientError {
    /// What the user reads of the error.
    pub open spec fn text(self) -> Seq<char> {
        match self {
            ClientError::NotEnoughtNodes => "not enough nodes to store the file"@,
            ClientError::InternalError => "internal error, actual message is logged"@,
            ClientError::NotAllowed => "not allowed"@,
            ClientError::AlreadyRegistered => "already registered"@,
            ClientError::InvalidProof => "invalid proof"@,
            ClientError::YouWonTheLottery => "you won the lottery, now try again"@,
            ClientError::NotFound => "not found"@,
            ClientError::InvalidNonce(nonce) => "invalid nonce, expected: "@ + text::decimal(nonce as nat),
            ClientError::NotRegistered => "not registered"@,
            ClientError::ChannelClosed => "channel closed"@,
            ClientError::Timeout => "timeout"@,
            ClientError::InvalidResponse => "invalid response"@,
        }
    }

    /// What the user reads of the error.
    pub fn message(&self) -> (text: String)
        ensures
            text@ == self.text(),
    {
        match self {
            ClientError::NotEnoughtNodes => "not enough nodes to store the file".to_owned(),
            ClientError::InternalError => "internal error, actual message is logged".to_owned(),
            ClientError::NotAllowed => "not allowed".to_owned(),
            ClientError::AlreadyRegistered => "already registered".to_owned(),
            ClientError::InvalidProof => "invalid proof".to_owned(),
            ClientError::YouWonTheLottery => "you won the lottery, now try again".to_owned(),
            ClientError::NotFound => "not found".to_owned(),
            ClientError::InvalidNonce(nonce) => {
                let mut text: String = "invalid nonce, expected: ".to_owned();
                text::push_decimal(&mut text, *nonce);
                text
            },
            ClientError::NotRegistered => "not registered".to_owned(),
            ClientError::ChannelClosed => "channel closed".to_owned(),
            ClientError::Timeout => "timeout".to_owned(),
            ClientError::InvalidResponse => "invalid response".to_owned(),
        }
    }
}

/// What a storage node can be refused with.
#[derive(Clone, Copy, Debug, PartialEq, Eq, Structural)]
pub enum NodeError {
    InvalidProof,
    AlreadyRegistered,
    NotRegistered,
    InvalidNonce(Nonce),
    StoreError,
    InvalidAddress,
}

impl NodeError {
    /// What the user reads of the error.
    pub open spec fn text(self) -> Seq<char> {
        match self {
            NodeError::InvalidProof => "invalid proof"@,
            NodeError::AlreadyRegistered => "already registered"@,
            NodeError::NotRegistered => "not registered"@,
            NodeError::InvalidNonce(nonce) => "invalid nonce, expected: "@ + text::decimal(nonce as nat),
            NodeError::StoreError => "store thrown unexpected error, actual message is logged"@,
            NodeError::InvalidAddress => "invalid address, expected ip followed by port in the multiaddr format"@,
        }
    }

    /// What the user reads of the error.
    pub fn message(&self) -> (text: String)
        ensures
            text@ == self.text(),
    {
        match self {
            NodeError::InvalidProof => "invalid proof".to_owned(),
            NodeError::AlreadyRegistered => "already registered".to_owned(),
            NodeError::NotRegistered => "not registered".to_owned(),
            NodeError::InvalidNonce(nonce) => {
                let mut text: String = "invalid nonce, expected: ".to_owned();
                text::push_decimal(&mut text, *nonce);
                text
            },
            NodeError::StoreError => "store thrown unexpected error, actual message is logged".to_owned(),
            NodeError::InvalidAddress => "invalid address, expected ip followed by port in the multiaddr format".to_owned(),
        }
    }
}

#[verifier::external_type_specification]
#[verifier::external_body]
pub struct ExError(anyhow::Error);

impl From<anyhow::Error> for ClientError {
    /// A client is not told what went wrong inside a satelite.
    fn from(_err: anyhow::Error) -> (error: ClientError) {
        ClientError::InternalError
    }
}

impl vstd::std_specs::convert::FromSpecImpl<anyhow::Error> for ClientError {
    open spec fn obeys_from_spec() -> bool {
        true
    }

    open spec fn from_spec(_err: anyhow::Error) -> ClientError {
        ClientError::InternalError
    }
}

impl From<anyhow::Error> for NodeError {
    /// A node is not told what went wrong inside the store.
    fn from(_err: anyhow::Error) -> (error: NodeError) {
        NodeError::StoreError
    }
}

impl vstd::std_specs::convert::FromSpecImpl<anyhow::Error> for NodeError {
    open spec fn obeys_from_spec() -> bool {
        true
    }

    open spec fn from_spec(_err: anyhow::Error) -> NodeError {
        NodeError::StoreError
    }
}

/// An error together with its root cause, where that is one of the errors
/// above.
#[derive(Debug)]
pub struct Failure<E, C> {
    pub error: E,
    pub cause: Option<C>,
}

/// Takes a mail that went straight to its addressee for delivered.
pub trait RecoverMail<E, X>: Sized {
    /// The result before the recovery.
    spec fn outcome(self) -> Result<(), Failure<E, ChatError<X>>>;

    fn recover_mail(self) -> (recovered: Result<(), Failure<E, ChatError<X>>>)
        ensures
            recovered == match self.outcome() {
                Ok(()) => Ok(()),
                Err(failure) => if failure.cause matches Some(cause) && cause is SentDirectly {
                    Ok(())
                } else {
                    Err(failure)
                },
            },
    ;
}

impl<E, X> RecoverMail<E, X> for Result<(), Failure<E, ChatError<X>>> {
    open spec fn outcome(self) -> Result<(), Failure<E, ChatError<X>>> {
        self
    }

    fn recover_mail(self) -> (recovered: Result<(), Failure<E, ChatError<X>>>) {
        match self {
            Ok(()) => Ok(()),
            Err(failure) => match failure.cause {
                Some(ChatError::SentDirectly) => Ok(()),
                _ => Err(failure),
            },
        }
    }
}

/// Takes a wrong nonce out of the errors, so that the caller can try again with
/// the one that was expected.
pub trait DowncastNonce<O, E>: Sized {
    /// The result before the recovery.
    spec fn outcome(self) -> Result<O, Failure<E, ClientError>>;

    fn downcast_nonce(self) -> (cast: Result<Result<O, Nonce>, Failure<E, ClientError>>)
        ensures
            cast == match self.outcome() {
                Ok(value) => Ok(Ok(value)),
                Err(failure) => match failure.cause {
                    Some(ClientError::InvalidNonce(nonce)) => Ok(Err(nonce)),
                    _ => Err(failure),
                },
            },
    ;
}

impl<O, E> DowncastNonce<O, E> for Result<O, Failure<E, ClientError>> {
    open spec fn outcome(self) -> Result<O, Failure<E, ClientError>> {
        self
    }

    fn downcast_nonce(self) -> (cast: Result<Result<O, Nonce>, Failure<E, ClientError>>) {
        match self {
            Ok(value) => Ok(Ok(value)),
            Err(failure) => match failure.cause {
                Some(ClientError::InvalidNonce(nonce)) => Ok(Err(nonce)),
                _ => Err(failure),
            },
        }
    }
}

/// Whoever is told of a wrong nonce reads which one was expected.
pub proof fn lemma_expected_nonce_is_told(nonce: Nonce)
    ensures
        forall|message: String| #[trigger]
            call_ensures(ClientError::message, (&ClientError::InvalidNonce(nonce),), message)
                ==> exists|digits: Seq<char>| #[trigger]
                text::reads_as(digits, nonce as int) && message@ == "invalid nonce, expected: "@
                    + digits,
        forall|message: String| #[trigger]
            call_ensures(NodeError::message, (&NodeError::InvalidNonce(nonce),), message)
                ==> exists|digits: Seq<char>| #[trigger]
                text::reads_as(digits, nonce as int) && message@ == "invalid nonce, expected: "@
                    + digits,
{
    let digits = text::decimal(nonce as nat);
    text::lemma_decimal_reads_as(nonce as nat);
    assert(text::reads_as(digits, nonce as int));
}

/// Mail that went straight to its addressee counts as delivered. No other error is
/// taken for a success, and no success is lost.
pub proof fn lemma_only_direct_mail_is_recovered<E, X>(
    failure: Failure<E, ChatError<X>>,
    error: E,
)
    ensures
        forall|recovered: Result<(), Failure<E, ChatError<X>>>| #[trigger]
            call_ensures(
                <Result<(), Failure<E, ChatError<X>>> as RecoverMail<E, X>>::recover_mail,
                (Ok(()),),
                recovered,
            ) ==> recovered is Ok,
        forall|recovered: Result<(), Failure<E, ChatError<X>>>| #[trigger]
            call_ensures(
                <Result<(), Failure<E, ChatError<X>>> as RecoverMail<E, X>>::recover_mail,
                (Err(Failure { error, cause: Some(ChatError::SentDirectly) }),),
                recovered,
            ) ==> recovered is Ok,
        failure.cause != Some(ChatError::<X>::SentDirectly) ==> forall|
            recovered: Result<(), Failure<E, ChatError<X>>>,
        | #[trigger]
            call_ensures(
                <Result<(), Failure<E, ChatError<X>>> as RecoverMail<E, X>>::recover_mail,
                (Err(failure),),
                recovered,
            ) ==> (recovered matches Err(kept) && kept == failure),
{
}

/// A wrong nonce comes out as the one that was expected. Every other error stays an
/// error, and a value stays a value.
pub proof fn lemma_only_nonces_are_taken_out<O, E>(
    value: O,
    failure: Failure<E, ClientError>,
    error: E,
    nonce: Nonce,
)
    ensures
        forall|cast: Result<Result<O, Nonce>, Failure<E, ClientError>>| #[trigger]
            call_ensures(
                <Result<O, Failure<E, ClientError>> as DowncastNonce<O, E>>::downcast_nonce,
                (Ok(value),),
                cast,
            ) ==> (cast matches Ok(Ok(kept)) && kept == value),
        forall|cast: Result<Result<O, Nonce>, Failure<E, ClientError>>| #[trigger]
            call_ensures(
                <Result<O, Failure<E, ClientError>> as DowncastNonce<O, E>>::downcast_nonce,
                (Err(Failure { error, cause: Some(ClientError::InvalidNonce(nonce)) }),),
                cast,
            ) ==> (cast matches Ok(Err(expected)) && expected == nonce),
        !(failure.cause matches Some(ClientError::InvalidNonce(_))) ==> forall|
            cast: Result<Result<O, Nonce>, Failure<E, ClientError>>,
        | #[trigger]
            call_ensures(
                <Result<O, Failure<E, ClientError>> as DowncastNonce<O, E>>::downcast_nonce,
                (Err(failure),),
                cast,
            ) ==> (cast matches Err(kept) && kept == failure),
{
}

/// Nobody outside is told what went wrong inside.
pub proof fn lemma_inner_errors_are_kept(error: anyhow::Error)
    ensures
        forall|told: ClientError| #[trigger]
            call_ensures(<ClientError as From<anyhow::Error>>::from, (error,), told)
                ==> told is InternalError,
        forall|told: NodeError| #[trigger]
            call_ensures(<NodeError as From<anyhow::Error>>::from, (error,), told)
                ==> told is StoreError,
{
}

} // verus!
