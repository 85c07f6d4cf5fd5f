//! Records of the storage network: where a file lies, who may store and read
//! it, and how much bandwidth was granted and used.

use crate::errors::Nonce;
use crate::ids::Digest;
use crate::net::SocketAddr;
use crate::text;
use vstd::prelude::*;

verus! {

/// Size of one piece of a file in bytes.
pub const PIECE_SIZE: usize = 1024;

/// Identity of a storage node.
pub type NodeIdentity = Digest;

/// Identity of a user of the storage.
pub type UserIdentity = Digest;

/// Digest that names a file.
pub type FileId = Digest;

/// Number under which a satelite knows a storage node.
pub type NodeId = u16;

/// Free space of a storage node in bytes.
pub type FreeSpace = u64;

/// One piece of a file.
pub type Piece = [u8; PIECE_SIZE];

/// A file: its digest and its size in bytes.
#[derive(Clone, Copy, Debug)]
pub struct Address {
    pub id: FileId,
    pub size: u64,
}

impl Address {
    /// Name of the file on disk: the bytes of the encoded address in
    /// hexadecimal.
    pub fn to_file_name<Encode: FnOnce(&Address) -> Vec<u8>>(&self, encode: Encode) -> (name:
        String)
        requires
            call_requires(encode, (self,)),
        ensures
            exists|bytes: Vec<u8>| #[trigger]
                call_ensures(encode, (self,), bytes) && name@ == text::hex(bytes@),
    {
        let bytes: Vec<u8> = encode(self);
        text::to_hex(&bytes)
    }
}

/// Files whose encodings differ have different names.
pub proof fn lemma_names_tell_files_apart<Encode: FnOnce(&Address) -> Vec<u8>>(
    encode: Encode,
    one: Address,
    other: Address,
    name_of_one: Seq<char>,
    name_of_other: Seq<char>,
)
    requires
        exists|bytes: Vec<u8>| #[trigger]
            call_ensures(encode, (&one,), bytes) && name_of_one == text::hex(bytes@),
        exists|bytes: Vec<u8>| #[trigger]
            call_ensures(encode, (&other,), bytes) && name_of_other == text::hex(bytes@),
        forall|a: Vec<u8>, b: Vec<u8>|
            call_ensures(encode, (&one,), a) && call_ensures(encode, (&other,), b) ==> a@ != b@,
    ensures
        name_of_one != name_of_other,
{
    let a = choose|bytes: Vec<u8>| #[trigger]
        call_ensures(encode, (&one,), bytes) && name_of_one == text::hex(bytes@);
    let b = choose|bytes: Vec<u8>| #[trigger]
        call_ensures(encode, (&other,), bytes) && name_of_other == text::hex(bytes@);
    if name_of_one == name_of_other {
        text::lemma_hex_injective(a@, b@);
    }
}

/// Leave to store a file on one node.
#[derive(Clone, Copy, Debug)]
pub struct StoreContext {
    pub address: Address,
    pub dest: NodeIdentity,
}

/// Leave to use an amount of a node's bandwidth, in bytes.
#[derive(Clone, Copy, Debug)]
pub struct BandwidthContext {
    pub dest: NodeIdentity,
    pub issuer: UserIdentity,
    pub amount: u64,
}

/// Bytes of a signature.
#[derive(Clone, Debug)]
pub struct Signature {
    pub bytes: Vec<u8>,
}

/// A context that somebody signed: who, under which nonce, and the signature.
#[derive(Clone, Debug)]
pub struct Proof<T> {
    pub public_key: Vec<u8>,
    pub context: T,
    pub nonce: Nonce,
    pub signature: Signature,
}

/// How much of a grant was used, the grant given by its signature alone.
#[derive(Clone, Debug)]
pub struct CompactBandwidthUse {
    pub signature: Signature,
    pub amount: u64,
}

/// How much of a grant was used.
#[derive(Clone, Debug)]
pub struct BandwidthUse {
    pub proof: Proof<BandwidthContext>,
    pub amount: u64,
}

impl BandwidthUse {
    /// Whether the grant was used up.
    pub fn is_exhaused(&self) -> (exhausted: bool)
        ensures
            exhausted == (self.amount == self.proof.context.amount),
    {
        self.amount == self.proof.context.amount
    }
}

/// A file and where its pieces lie.
#[derive(Clone, Copy, Debug)]
pub struct File<const MAX_PIECES: usize> {
    pub address: Address,
    pub holders: [(NodeIdentity, SocketAddr); MAX_PIECES],
}

/// What a satelite keeps about a file: who holds its pieces, and whose it is.
#[derive(Clone, Copy, Debug)]
pub struct FileMeta<const MAX_PIECES: usize> {
    pub holders: [NodeId; MAX_PIECES],
    pub owner: UserIdentity,
}

/// A storage request: the procedure and its arguments.
#[derive(Clone, Debug)]
pub struct Request {
    pub prefix: u8,
    pub body: Vec<u8>,
}

/// The name of a file gives its encoded address back, two digits for each byte.
pub proof fn lemma_name_gives_the_address<Encode: FnOnce(&Address) -> Vec<u8>>(
    address: Address,
    encode: Encode,
)
    ensures
        forall|name: String| #[trigger]
            call_ensures(Address::to_file_name::<Encode>, (&address, encode), name) ==> exists|
                bytes: Vec<u8>,
            | #[trigger]
                call_ensures(encode, (&address,), bytes) && {
                    &&& name@.len() == 2 * bytes@.len()
                    &&& forall|i: int|
                        0 <= i < bytes@.len() ==> #[trigger] bytes@[i] == 16 * text::digit_value(
                            name@[2 * i],
                        ) + text::digit_value(name@[2 * i + 1])
                },
{
    assert forall|name: String| #[trigger]
        call_ensures(Address::to_file_name::<Encode>, (&address, encode), name) implies exists|
        bytes: Vec<u8>,
    | #[trigger]
        call_ensures(encode, (&address,), bytes) && {
            &&& name@.len() == 2 * bytes@.len()
            &&& forall|i: int|
                0 <= i < bytes@.len() ==> #[trigger] bytes@[i] == 16 * text::digit_value(
                    name@[2 * i],
                ) + text::digit_value(name@[2 * i + 1])
        } by {
        let bytes = choose|bytes: Vec<u8>| #[trigger]
            call_ensures(encode, (&address,), bytes) && name@ == text::hex(bytes@);
        assert(call_ensures(encode, (&address,), bytes));
        assert forall|i: int| 0 <= i < bytes@.len() implies #[trigger] bytes@[i] == 16
            * text::digit_value(name@[2 * i]) + text::digit_value(name@[2 * i + 1]) by {
            text::lemma_hex_digits(bytes@, i);
        }
    }
}

/// A grant is used up exactly where as much was used as it allows. A piece has 1024
/// bytes.
pub proof fn lemma_grant_is_used_up(used: BandwidthUse)
    ensures
        PIECE_SIZE == 1024,
        forall|exhausted: bool| #[trigger]
            call_ensures(BandwidthUse::is_exhaused, (&used,), exhausted) ==> (exhausted
                <==> used.amount - used.proof.context.amount == 0),
{
}

} // verus!
