//! Keys of server nodes and of users, and the seeds they are derived from.
//!
//! The key pairs themselves are made by the caller from a source of entropy.
//! What is decided here is which seed feeds that source and in which order the
//! keys are drawn from it.

use crate::hash;
use crate::ids::{Digest, Identity, NodeId};
use vstd::prelude::*;
use vstd::string::*;

verus! {

/// Secret shared by the two ends of an encryption.
pub type SharedSecret = [u8; 32];

/// A user name as the chain stores it.
pub type RawUserName = [u8; 32];

#[verifier::external_type_specification]
#[verifier::external_body]
pub struct ExMnemonic(bip39::Mnemonic);

#[verifier::external_type_specification]
#[verifier::external_body]
pub struct ExChaChaRng(rand_chacha::ChaChaRng);

/// The words of a mnemonic in order, as `bip39::Mnemonic::words` gives them.
pub uninterp spec fn mnemonic_words(mnemonic: bip39::Mnemonic) -> Seq<Seq<char>>;

/// The 64 byte seed that BIP-39 derives from a sequence of words and a
/// passphrase: what `bip39::Mnemonic::to_seed` returns.
pub uninterp spec fn bip39_seed(words: Seq<Seq<char>>, passphrase: Seq<char>) -> Seq<u8>;

/// The Argon2id hash with the default parameters of a password and a salt: what
/// `argon2::Argon2::hash_password_into` puts into 32 bytes.
pub uninterp spec fn argon2_hash(password: Seq<u8>, salt: Seq<u8>) -> Seq<u8>;

/// The generator that `rand_chacha::ChaChaRng::from_seed` makes of 32 bytes.
pub uninterp spec fn chacha_rng(seed: Seq<u8>) -> rand_chacha::ChaChaRng;

/// Calls `bip39::Mnemonic::to_seed`. The seed depends on the words of the
/// mnemonic and on the passphrase.
#[verifier::external_body]
fn mnemonic_to_seed(mnemonic: &bip39::Mnemonic, passphrase: &str) -> (seed: [u8; 64])
    ensures
        seed@ == bip39_seed(mnemonic_words(*mnemonic), passphrase@),
{
    mnemonic.to_seed(passphrase)
}

/// Calls `argon2::Argon2::hash_password_into` with the default parameters and a
/// 32 byte output. It fails exactly where the salt or the password has a length
/// that Argon2 does not take, which is left out.
#[verifier::external_body]
fn hash_password(password: &[u8], salt: &[u8]) -> (out: [u8; 32])
    requires
        password@.len() <= 0xFFFF_FFFF,
        8 <= salt@.len() <= 0xFFFF_FFFF,
    ensures
        out@ == argon2_hash(password@, salt@),
{
    let mut bytes = [0; 32];
    argon2::Argon2::default().hash_password_into(password, salt, &mut bytes).unwrap();
    bytes
}

/// Calls `rand_chacha::ChaChaRng::from_seed`.
#[verifier::external_body]
fn seeded_rng(seed: [u8; 32]) -> (rng: rand_chacha::ChaChaRng)
    ensures
        rng == chacha_rng(seed@),
{
    rand_core::SeedableRng::from_seed(seed)
}

#[verifier::external_type_specification]
#[verifier::external_body]
pub struct ExOsRng(rand_core::OsRng);

/// Gives `rand_core::OsRng`, the generator of the operating system. Nothing is
/// stated of what is drawn from it.
#[verifier::external_body]
fn os_rng() -> (rng: rand_core::OsRng) {
    rand_core::OsRng
}

/// A signing key pair and the identity that its public key hashes to.
#[derive(Clone)]
pub struct SignKeypair<S> {
    pub pair: S,
    pub identity: Identity,
}

/// A key exchange key pair and the bytes of its public key.
#[derive(Clone)]
pub struct EncKeypair<E> {
    pub pair: E,
    pub public_key: Vec<u8>,
}

/// Keys of a server node.
#[derive(Clone)]
pub struct NodeKeys<S, E> {
    pub enc: EncKeypair<E>,
    pub sign: SignKeypair<S>,
}

/// The keys were drawn from `entropy`: the key exchange pair first, the signing
/// pair from what was left.
pub open spec fn node_keys_drawn<
    S,
    E,
    G,
    NewEnc: FnOnce(G) -> (EncKeypair<E>, G),
    NewSign: FnOnce(G) -> SignKeypair<S>,
>(entropy: G, new_enc: NewEnc, new_sign: NewSign, keys: NodeKeys<S, E>) -> bool {
    exists|left: G| #[trigger] node_keys_drawn_by_way_of(entropy, left, new_enc, new_sign, keys)
}

/// As `node_keys_drawn`, where `left` is what the first draw left over.
pub open spec fn node_keys_drawn_by_way_of<
    S,
    E,
    G,
    NewEnc: FnOnce(G) -> (EncKeypair<E>, G),
    NewSign: FnOnce(G) -> SignKeypair<S>,
>(entropy: G, left: G, new_enc: NewEnc, new_sign: NewSign, keys: NodeKeys<S, E>) -> bool {
    &&& call_ensures(new_enc, (entropy,), (keys.enc, left))
    &&& call_ensures(new_sign, (left,), keys.sign)
}

/// The generator that the keys of a node with this mnemonic are drawn from.
pub open spec fn node_entropy(mnemonic: bip39::Mnemonic) -> rand_chacha::ChaChaRng {
    chacha_rng(hash::blake3_digest(bip39_seed(mnemonic_words(mnemonic), ""@)))
}

impl<S, E> NodeKeys<S, E> {
    /// Identity of the node.
    pub fn identity(&self) -> (id: NodeId)
        ensures
            id == self.sign.identity,
    {
        self.sign.identity
    }

    /// Digest of the public key that others encrypt to.
    pub fn enc_hash(&self) -> (digest: Digest)
        ensures
            digest@ == hash::blake3_digest(self.enc.public_key@),
    {
        hash::new(&self.enc.public_key)
    }

    /// Keys drawn from a generator whose seed is the digest of the mnemonic's
    /// own seed. The same mnemonic always feeds the same generator.
    pub fn from_mnemonic<
        NewEnc: FnOnce(rand_chacha::ChaChaRng) -> (EncKeypair<E>, rand_chacha::ChaChaRng),
        NewSign: FnOnce(rand_chacha::ChaChaRng) -> SignKeypair<S>,
    >(mnemonic: &bip39::Mnemonic, new_enc: NewEnc, new_sign: NewSign) -> (keys: Self)
        requires
            forall|rng: rand_chacha::ChaChaRng| call_requires(new_enc, (rng,)),
            forall|rng: rand_chacha::ChaChaRng| call_requires(new_sign, (rng,)),
        ensures
            node_keys_drawn(node_entropy(*mnemonic), new_enc, new_sign, keys),
    {
        let seed: Digest = hash::new(&mnemonic_to_seed(mnemonic, ""));
        Self::new_from_entropy(seeded_rng(seed), new_enc, new_sign)
    }

    /// Keys drawn from the generator of the operating system.
    pub fn random<
        NewEnc: FnOnce(rand_core::OsRng) -> (EncKeypair<E>, rand_core::OsRng),
        NewSign: FnOnce(rand_core::OsRng) -> SignKeypair<S>,
    >(new_enc: NewEnc, new_sign: NewSign) -> (keys: Self)
        requires
            forall|rng: rand_core::OsRng| call_requires(new_enc, (rng,)),
            forall|rng: rand_core::OsRng| call_requires(new_sign, (rng,)),
        ensures
            exists|rng: rand_core::OsRng| #[trigger] node_keys_drawn(rng, new_enc, new_sign, keys),
    {
        Self::new_from_entropy(os_rng(), new_enc, new_sign)
    }

    /// Keys drawn from the given source of entropy.
    pub fn new_from_entropy<
        G,
        NewEnc: FnOnce(G) -> (EncKeypair<E>, G),
        NewSign: FnOnce(G) -> SignKeypair<S>,
    >(entropy: G, new_enc: NewEnc, new_sign: NewSign) -> (keys: Self)
        requires
            forall|g: G| call_requires(new_enc, (g,)),
            forall|g: G| call_requires(new_sign, (g,)),
        ensures
            node_keys_drawn(entropy, new_enc, new_sign, keys),
    {
        let (enc, left) = new_enc(entropy);
        let sign = new_sign(left);
        let keys = NodeKeys { enc, sign };
        assert(node_keys_drawn_by_way_of(entropy, left, new_enc, new_sign, keys));
        keys
    }
}

/// A user name: its text and the form in which the chain stores it.
#[derive(Clone, Debug)]
pub struct UserName {
    pub text: String,
    pub raw: RawUserName,
}

/// `n` blanks.
pub open spec fn blanks(n: nat) -> Seq<char> {
    Seq::new(n, |i: int| ' ')
}

/// The name under which a client keeps its direct chat with a user: the name of
/// the user and 32 blanks.
pub fn encode_direct_chat_name(name: &UserName) -> (encoded: String)
    ensures
        encoded@ == name.text@ + blanks(32),
{
    let mut encoded: String = name.text.as_str().to_owned();
    encoded.append("                                ");
    proof {
        reveal_strlit("                                ");
        assert("                                "@ =~= blanks(32));
    }
    encoded
}

/// Direct chats of users with different names have different names.
pub proof fn lemma_direct_chats_apart(one: Seq<char>, other: Seq<char>)
    requires
        one + blanks(32) == other + blanks(32),
    ensures
        one == other,
{
    let (a, b) = (one + blanks(32), other + blanks(32));
    assert(a.len() == one.len() + 32 && b.len() == other.len() + 32);
    assert(a.take(one.len() as int) =~= one);
    assert(b.take(other.len() as int) =~= other);
}

/// The name of a direct chat is longer than any chat name of up to 32
/// characters, so the two are never mistaken for each other.
pub proof fn lemma_direct_chat_is_no_chat(user: Seq<char>, chat: Seq<char>)
    requires
        user.len() > 0,
        chat.len() <= 32,
    ensures
        user + blanks(32) != chat,
{
    assert((user + blanks(32)).len() > 32);
}

/// What the chain stores about a user.
#[derive(Clone, Copy, Debug)]
pub struct Profile {
    pub sign: Identity,
    pub enc: Digest,
}

/// Keys of a user and where to reach the chain.
#[derive(Clone)]
pub struct UserKeys<S, E> {
    pub name: UserName,
    pub sign: SignKeypair<S>,
    pub enc: EncKeypair<E>,
    pub vault: SharedSecret,
    pub hot_wallet: SharedSecret,
    pub chain_url: String,
}

/// The keys were drawn from `entropy` one after another: the signing pair, the
/// key exchange pair, the vault secret and the wallet secret. `left` is what
/// remained.
pub open spec fn user_keys_drawn<
    S,
    E,
    G,
    NewSign: FnOnce(G) -> (SignKeypair<S>, G),
    NewEnc: FnOnce(G) -> (EncKeypair<E>, G),
    NewSecret: Fn(G) -> (SharedSecret, G),
>(
    entropy: G,
    new_sign: NewSign,
    new_enc: NewEnc,
    new_secret: NewSecret,
    keys: UserKeys<S, E>,
    left: G,
) -> bool {
    exists|a: G, b: G, c: G| #[trigger]
        user_keys_drawn_by_way_of(entropy, a, b, c, left, new_sign, new_enc, new_secret, keys)
}

/// As `user_keys_drawn`, where `a`, `b` and `c` are what the first three draws
/// left over.
pub open spec fn user_keys_drawn_by_way_of<
    S,
    E,
    G,
    NewSign: FnOnce(G) -> (SignKeypair<S>, G),
    NewEnc: FnOnce(G) -> (EncKeypair<E>, G),
    NewSecret: Fn(G) -> (SharedSecret, G),
>(
    entropy: G,
    a: G,
    b: G,
    c: G,
    left: G,
    new_sign: NewSign,
    new_enc: NewEnc,
    new_secret: NewSecret,
    keys: UserKeys<S, E>,
) -> bool {
    &&& call_ensures(new_sign, (entropy,), (keys.sign, a))
    &&& call_ensures(new_enc, (a,), (keys.enc, b))
    &&& call_ensures(new_secret, (b,), (keys.vault, c))
    &&& call_ensures(new_secret, (c,), (keys.hot_wallet, left))
}

/// The two halves of a 64 byte seed, combined by exclusive or.
pub open spec fn folded(seed: Seq<u8>) -> Seq<u8> {
    Seq::new(32, |i: int| seed[i] ^ seed[i + 32])
}

/// Combines the two halves of a seed by exclusive or.
pub fn fold_seed(seed: [u8; 64]) -> (out: [u8; 32])
    ensures
        out@ == folded(seed@),
{
    let mut out: [u8; 32] = [0; 32];
    let mut i: usize = 0;
    while i < 32
        invariant
            i <= 32,
            forall|k: int| 0 <= k < i ==> out@[k] == seed@[k] ^ seed@[k + 32],
        decreases 32 - i,
    {
        out[i] = seed[i] ^ seed[i + 32];
        i = i + 1;
    }
    assert(out@ =~= folded(seed@));
    out
}

/// Why a user could not be registered.
#[derive(Clone, Copy, Debug, PartialEq, Eq, Structural)]
pub enum RegisterError {
    /// Somebody else has the name.
    NameTaken,
}

impl RegisterError {
    /// What the user reads of the error.
    pub fn message(&self) -> (text: String)
        ensures
            text@ == "user with this name already exists"@,
    {
        match self {
            RegisterError::NameTaken => "user with this name already exists".to_owned(),
        }
    }
}

impl<S, E> UserKeys<S, E> {
    /// Keys drawn from a generator whose seed is the Argon2 hash of the
    /// password, salted with the user's name.
    pub fn new<
        NewSign: FnOnce(rand_chacha::ChaChaRng) -> (SignKeypair<S>, rand_chacha::ChaChaRng),
        NewEnc: FnOnce(rand_chacha::ChaChaRng) -> (EncKeypair<E>, rand_chacha::ChaChaRng),
        NewSecret: Fn(rand_chacha::ChaChaRng) -> (SharedSecret, rand_chacha::ChaChaRng),
    >(
        name: UserName,
        password: &str,
        chain_url: &str,
        new_sign: NewSign,
        new_enc: NewEnc,
        new_secret: NewSecret,
    ) -> (keys: Self)
        requires
            vstd::utf8::encode_utf8(password@).len() <= 0xFFFF_FFFF,
            forall|rng: rand_chacha::ChaChaRng| call_requires(new_sign, (rng,)),
            forall|rng: rand_chacha::ChaChaRng| call_requires(new_enc, (rng,)),
            forall|rng: rand_chacha::ChaChaRng| call_requires(new_secret, (rng,)),
        ensures
            keys.name == name,
            keys.chain_url@ == chain_url@,
            exists|left: rand_chacha::ChaChaRng|
                user_keys_drawn(
                    chacha_rng(argon2_hash(vstd::utf8::encode_utf8(password@), name.raw@)),
                    new_sign,
                    new_enc,
                    new_secret,
                    keys,
                    left,
                ),
    {
        let seed: [u8; 32] = hash_password(password.as_bytes(), &name.raw);
        let (keys, _left) = Self::new_from_entropy(
            name,
            seeded_rng(seed),
            chain_url,
            new_sign,
            new_enc,
            new_secret,
        );
        keys
    }

    /// Keys drawn from a generator whose seed is the mnemonic's seed, folded in
    /// half.
    pub fn from_mnemonic<
        NewSign: FnOnce(rand_chacha::ChaChaRng) -> (SignKeypair<S>, rand_chacha::ChaChaRng),
        NewEnc: FnOnce(rand_chacha::ChaChaRng) -> (EncKeypair<E>, rand_chacha::ChaChaRng),
        NewSecret: Fn(rand_chacha::ChaChaRng) -> (SharedSecret, rand_chacha::ChaChaRng),
    >(
        name: UserName,
        mnemonic: bip39::Mnemonic,
        chain_url: &str,
        new_sign: NewSign,
        new_enc: NewEnc,
        new_secret: NewSecret,
    ) -> (keys: Self)
        requires
            forall|rng: rand_chacha::ChaChaRng| call_requires(new_sign, (rng,)),
            forall|rng: rand_chacha::ChaChaRng| call_requires(new_enc, (rng,)),
            forall|rng: rand_chacha::ChaChaRng| call_requires(new_secret, (rng,)),
        ensures
            keys.name == name,
            keys.chain_url@ == chain_url@,
            exists|left: rand_chacha::ChaChaRng|
                user_keys_drawn(
                    chacha_rng(folded(bip39_seed(mnemonic_words(mnemonic), ""@))),
                    new_sign,
                    new_enc,
                    new_secret,
                    keys,
                    left,
                ),
    {
        let seed: [u8; 32] = fold_seed(mnemonic_to_seed(&mnemonic, ""));
        let (keys, _left) = Self::new_from_entropy(
            name,
            seeded_rng(seed),
            chain_url,
            new_sign,
            new_enc,
            new_secret,
        );
        keys
    }

    /// Keys drawn from the given source of entropy, and what is left of it.
    pub fn new_from_entropy<
        G,
        NewSign: FnOnce(G) -> (SignKeypair<S>, G),
        NewEnc: FnOnce(G) -> (EncKeypair<E>, G),
        NewSecret: Fn(G) -> (SharedSecret, G),
    >(
        name: UserName,
        entropy: G,
        chain_url: &str,
        new_sign: NewSign,
        new_enc: NewEnc,
        new_secret: NewSecret,
    ) -> (drawn: (Self, G))
        requires
            forall|g: G| call_requires(new_sign, (g,)),
            forall|g: G| call_requires(new_enc, (g,)),
            forall|g: G| call_requires(new_secret, (g,)),
        ensures
            drawn.0.name == name,
            drawn.0.chain_url@ == chain_url@,
            user_keys_drawn(entropy, new_sign, new_enc, new_secret, drawn.0, drawn.1),
    {
        let (sign, a) = new_sign(entropy);
        let (enc, b) = new_enc(a);
        let (vault, c) = new_secret(b);
        let (hot_wallet, left) = new_secret(c);
        let keys = UserKeys { name, sign, enc, vault, hot_wallet, chain_url: chain_url.to_owned() };
        assert(user_keys_drawn_by_way_of(
            entropy,
            a,
            b,
            c,
            left,
            new_sign,
            new_enc,
            new_secret,
            keys,
        ));
        (keys, left)
    }

    /// Identity of the user.
    pub fn identity(&self) -> (id: Identity)
        ensures
            id == self.sign.identity,
    {
        self.sign.identity
    }

    /// What the chain should store about this user.
    pub fn to_identity(&self) -> (profile: Profile)
        ensures
            profile.sign == self.sign.identity,
            profile.enc@ == hash::blake3_digest(self.enc.public_key@),
    {
        Profile { sign: self.sign.identity, enc: hash::new(&self.enc.public_key) }
    }

    /// What to register on chain: the raw name and the profile. A name that is
    /// taken is refused.
    pub fn register(&self, user_exists: bool) -> (plan: Result<
        (RawUserName, Profile),
        RegisterError,
    >)
        ensures
            plan is Err <==> user_exists,
            plan matches Ok((raw, profile)) ==> {
                &&& raw == self.name.raw
                &&& profile.sign == self.sign.identity
                &&& profile.enc@ == hash::blake3_digest(self.enc.public_key@)
            },
    {
        if user_exists {
            Err(RegisterError::NameTaken)
        } else {
            Ok((self.name.raw, self.to_identity()))
        }
    }
}

/// Keys are recovered from what they were drawn from: a node that draws from the
/// same entropy again gets the same keys, where making a pair leaves nothing to
/// chance.
pub proof fn lemma_node_keys_recovered<
    S,
    E,
    G,
    NewEnc: FnOnce(G) -> (EncKeypair<E>, G),
    NewSign: FnOnce(G) -> SignKeypair<S>,
>(
    entropy: G,
    new_enc: NewEnc,
    new_sign: NewSign,
    lost: NodeKeys<S, E>,
    found: NodeKeys<S, E>,
)
    requires
        forall|g: G, a: (EncKeypair<E>, G), b: (EncKeypair<E>, G)|
            call_ensures(new_enc, (g,), a) && call_ensures(new_enc, (g,), b) ==> a == b,
        forall|g: G, a: SignKeypair<S>, b: SignKeypair<S>|
            call_ensures(new_sign, (g,), a) && call_ensures(new_sign, (g,), b) ==> a == b,
        node_keys_drawn(entropy, new_enc, new_sign, lost),
        node_keys_drawn(entropy, new_enc, new_sign, found),
    ensures
        found == lost,
{
    let a = choose|left: G| #[trigger]
        node_keys_drawn_by_way_of(entropy, left, new_enc, new_sign, lost);
    let b = choose|left: G| #[trigger]
        node_keys_drawn_by_way_of(entropy, left, new_enc, new_sign, found);
    assert((lost.enc, a) == (found.enc, b));
}

/// The same mnemonic gives a node the same identity, and the same public key to
/// encrypt to, where making a pair leaves nothing to chance.
pub proof fn lemma_same_mnemonic_same_node<
    S,
    E,
    NewEnc: FnOnce(rand_chacha::ChaChaRng) -> (EncKeypair<E>, rand_chacha::ChaChaRng),
    NewSign: FnOnce(rand_chacha::ChaChaRng) -> SignKeypair<S>,
>(
    noted: bip39::Mnemonic,
    typed: bip39::Mnemonic,
    new_enc: NewEnc,
    new_sign: NewSign,
    lost: NodeKeys<S, E>,
    found: NodeKeys<S, E>,
)
    requires
        mnemonic_words(noted) == mnemonic_words(typed),
        forall|
            g: rand_chacha::ChaChaRng,
            a: (EncKeypair<E>, rand_chacha::ChaChaRng),
            b: (EncKeypair<E>, rand_chacha::ChaChaRng),
        |
            call_ensures(new_enc, (g,), a) && call_ensures(new_enc, (g,), b) ==> a == b,
        forall|g: rand_chacha::ChaChaRng, a: SignKeypair<S>, b: SignKeypair<S>|
            call_ensures(new_sign, (g,), a) && call_ensures(new_sign, (g,), b) ==> a == b,
        node_keys_drawn(node_entropy(noted), new_enc, new_sign, lost),
        node_keys_drawn(node_entropy(typed), new_enc, new_sign, found),
    ensures
        found.sign.identity == lost.sign.identity,
        hash::blake3_digest(found.enc.public_key@) == hash::blake3_digest(lost.enc.public_key@),
{
    lemma_node_keys_recovered(node_entropy(noted), new_enc, new_sign, lost, found);
}

/// As `lemma_node_keys_recovered`, for a user: the same password and name, or the
/// same mnemonic, give the same keys and secrets.
pub proof fn lemma_user_keys_recovered<
    S,
    E,
    G,
    NewSign: FnOnce(G) -> (SignKeypair<S>, G),
    NewEnc: FnOnce(G) -> (EncKeypair<E>, G),
    NewSecret: Fn(G) -> (SharedSecret, G),
>(
    entropy: G,
    new_sign: NewSign,
    new_enc: NewEnc,
    new_secret: NewSecret,
    lost: UserKeys<S, E>,
    lost_left: G,
    found: UserKeys<S, E>,
    found_left: G,
)
    requires
        forall|g: G, a: (SignKeypair<S>, G), b: (SignKeypair<S>, G)|
            call_ensures(new_sign, (g,), a) && call_ensures(new_sign, (g,), b) ==> a == b,
        forall|g: G, a: (EncKeypair<E>, G), b: (EncKeypair<E>, G)|
            call_ensures(new_enc, (g,), a) && call_ensures(new_enc, (g,), b) ==> a == b,
        forall|g: G, a: (SharedSecret, G), b: (SharedSecret, G)|
            call_ensures(new_secret, (g,), a) && call_ensures(new_secret, (g,), b) ==> a == b,
        user_keys_drawn(entropy, new_sign, new_enc, new_secret, lost, lost_left),
        user_keys_drawn(entropy, new_sign, new_enc, new_secret, found, found_left),
    ensures
        found.sign == lost.sign,
        found.enc == lost.enc,
        found.vault == lost.vault,
        found.hot_wallet == lost.hot_wallet,
        found_left == lost_left,
{
    let (a, b, c) = choose|a: G, b: G, c: G| #[trigger]
        user_keys_drawn_by_way_of(
            entropy,
            a,
            b,
            c,
            lost_left,
            new_sign,
            new_enc,
            new_secret,
            lost,
        );
    let (x, y, z) = choose|a: G, b: G, c: G| #[trigger]
        user_keys_drawn_by_way_of(
            entropy,
            a,
            b,
            c,
            found_left,
            new_sign,
            new_enc,
            new_secret,
            found,
        );
    assert((lost.sign, a) == (found.sign, x));
    assert((lost.enc, b) == (found.enc, y));
    assert((lost.vault, c) == (found.vault, z));
    assert((lost.hot_wallet, lost_left) == (found.hot_wallet, found_left));
}

/// Keys of a node are drawn from the entropy that is given, the key exchange pair
/// first and the signing pair from what that leaves. The node is known by its signing
/// key, and the key to encrypt to by its digest.
pub proof fn lemma_node_keys_come_in_turn<
    S,
    E,
    G,
    NewEnc: FnOnce(G) -> (EncKeypair<E>, G),
    NewSign: FnOnce(G) -> SignKeypair<S>,
>(entropy: G, new_enc: NewEnc, new_sign: NewSign)
    ensures
        forall|keys: NodeKeys<S, E>| #[trigger]
            call_ensures(
                NodeKeys::<S, E>::new_from_entropy::<G, NewEnc, NewSign>,
                (entropy, new_enc, new_sign),
                keys,
            ) ==> exists|left: G|
                {
                    &&& call_ensures(new_enc, (entropy,), (keys.enc, left))
                    &&& #[trigger] call_ensures(new_sign, (left,), keys.sign)
                },
        forall|keys: NodeKeys<S, E>, id: NodeId| #[trigger]
            call_ensures(NodeKeys::<S, E>::identity, (&keys,), id) ==> id == keys.sign.identity,
        forall|keys: NodeKeys<S, E>, digest: Digest| #[trigger]
            call_ensures(NodeKeys::<S, E>::enc_hash, (&keys,), digest) ==> digest@
                == hash::blake3_digest(keys.enc.public_key@),
{
    assert forall|keys: NodeKeys<S, E>| #[trigger]
        call_ensures(
            NodeKeys::<S, E>::new_from_entropy::<G, NewEnc, NewSign>,
            (entropy, new_enc, new_sign),
            keys,
        ) implies exists|left: G|
        {
            &&& call_ensures(new_enc, (entropy,), (keys.enc, left))
            &&& #[trigger] call_ensures(new_sign, (left,), keys.sign)
        } by {
        let left = choose|left: G| #[trigger]
            node_keys_drawn_by_way_of(entropy, left, new_enc, new_sign, keys);
        assert(call_ensures(new_sign, (left,), keys.sign));
    }
}

/// The mnemonic of a node feeds the generator that its keys are drawn from with the
/// digest of its seed, and with nothing else: there is no passphrase.
pub proof fn lemma_node_mnemonic_feeds_the_generator<
    S,
    E,
    NewEnc: FnOnce(rand_chacha::ChaChaRng) -> (EncKeypair<E>, rand_chacha::ChaChaRng),
    NewSign: FnOnce(rand_chacha::ChaChaRng) -> SignKeypair<S>,
>(mnemonic: bip39::Mnemonic, passphrase: Seq<char>, new_enc: NewEnc, new_sign: NewSign)
    requires
        passphrase.len() == 0,
    ensures
        forall|keys: NodeKeys<S, E>| #[trigger]
            call_ensures(
                NodeKeys::<S, E>::from_mnemonic::<NewEnc, NewSign>,
                (&mnemonic, new_enc, new_sign),
                keys,
            ) ==> exists|left: rand_chacha::ChaChaRng|
                {
                    &&& call_ensures(
                        new_enc,
                        (chacha_rng(
                            hash::blake3_digest(bip39_seed(mnemonic_words(mnemonic), passphrase)),
                        ),),
                        (keys.enc, left),
                    )
                    &&& #[trigger] call_ensures(new_sign, (left,), keys.sign)
                },
{
    reveal_strlit("");
    assert(passphrase =~= ""@);
    assert forall|keys: NodeKeys<S, E>| #[trigger]
        call_ensures(
            NodeKeys::<S, E>::from_mnemonic::<NewEnc, NewSign>,
            (&mnemonic, new_enc, new_sign),
            keys,
        ) implies exists|left: rand_chacha::ChaChaRng|
        {
            &&& call_ensures(
                new_enc,
                (chacha_rng(
                    hash::blake3_digest(bip39_seed(mnemonic_words(mnemonic), passphrase)),
                ),),
                (keys.enc, left),
            )
            &&& #[trigger] call_ensures(new_sign, (left,), keys.sign)
        } by {
        let left = choose|left: rand_chacha::ChaChaRng| #[trigger]
            node_keys_drawn_by_way_of(node_entropy(mnemonic), left, new_enc, new_sign, keys);
        assert(call_ensures(new_sign, (left,), keys.sign));
    }
}

/// Keys of a user were drawn from `entropy` in turn, each from what the one before it
/// left: the signing pair, the key exchange pair, the vault and the wallet. `left` is
/// what was left in the end.
pub open spec fn drawn_in_turn<
    S,
    E,
    G,
    NewSign: FnOnce(G) -> (SignKeypair<S>, G),
    NewEnc: FnOnce(G) -> (EncKeypair<E>, G),
    NewSecret: Fn(G) -> (SharedSecret, G),
>(
    entropy: G,
    new_sign: NewSign,
    new_enc: NewEnc,
    new_secret: NewSecret,
    keys: UserKeys<S, E>,
    left: G,
) -> bool {
    exists|a: G, b: G, c: G|
        {
            &&& call_ensures(new_sign, (entropy,), (keys.sign, a))
            &&& #[trigger] call_ensures(new_enc, (a,), (keys.enc, b))
            &&& call_ensures(new_secret, (b,), (keys.vault, c))
            &&& #[trigger] call_ensures(new_secret, (c,), (keys.hot_wallet, left))
        }
}

proof fn lemma_drawn_in_turn<
    S,
    E,
    G,
    NewSign: FnOnce(G) -> (SignKeypair<S>, G),
    NewEnc: FnOnce(G) -> (EncKeypair<E>, G),
    NewSecret: Fn(G) -> (SharedSecret, G),
>(
    entropy: G,
    new_sign: NewSign,
    new_enc: NewEnc,
    new_secret: NewSecret,
    keys: UserKeys<S, E>,
    left: G,
)
    requires
        user_keys_drawn(entropy, new_sign, new_enc, new_secret, keys, left),
    ensures
        drawn_in_turn(entropy, new_sign, new_enc, new_secret, keys, left),
{
    let (a, b, c) = choose|a: G, b: G, c: G| #[trigger]
        user_keys_drawn_by_way_of(entropy, a, b, c, left, new_sign, new_enc, new_secret, keys);
    assert(call_ensures(new_enc, (a,), (keys.enc, b)));
    assert(call_ensures(new_secret, (c,), (keys.hot_wallet, left)));
}

/// Keys of a user are drawn from the entropy that is given, and go with the name and
/// the address of the chain that are given.
pub proof fn lemma_user_keys_come_in_turn<
    S,
    E,
    G,
    NewSign: FnOnce(G) -> (SignKeypair<S>, G),
    NewEnc: FnOnce(G) -> (EncKeypair<E>, G),
    NewSecret: Fn(G) -> (SharedSecret, G),
>(
    name: UserName,
    entropy: G,
    chain_url: &str,
    new_sign: NewSign,
    new_enc: NewEnc,
    new_secret: NewSecret,
)
    ensures
        forall|drawn: (UserKeys<S, E>, G)| #[trigger]
            call_ensures(
                UserKeys::<S, E>::new_from_entropy::<G, NewSign, NewEnc, NewSecret>,
                (name, entropy, chain_url, new_sign, new_enc, new_secret),
                drawn,
            ) ==> {
                &&& drawn.0.name == name
                &&& drawn.0.chain_url@ == chain_url@
                &&& drawn_in_turn(entropy, new_sign, new_enc, new_secret, drawn.0, drawn.1)
            },
{
    assert forall|drawn: (UserKeys<S, E>, G)| #[trigger]
        call_ensures(
            UserKeys::<S, E>::new_from_entropy::<G, NewSign, NewEnc, NewSecret>,
            (name, entropy, chain_url, new_sign, new_enc, new_secret),
            drawn,
        ) implies drawn_in_turn(entropy, new_sign, new_enc, new_secret, drawn.0, drawn.1) by {
        lemma_drawn_in_turn(entropy, new_sign, new_enc, new_secret, drawn.0, drawn.1);
    }
}

/// Folding combines byte `i` of a seed with byte `32 + i` by exclusive or, so that
/// either of the two with the result gives the other back.
pub proof fn lemma_fold_is_undone_by_a_half(seed: [u8; 64], i: int)
    requires
        0 <= i < 32,
    ensures
        folded(seed@).len() == 32,
        folded(seed@)[i] ^ seed@[32 + i] == seed@[i],
        folded(seed@)[i] ^ seed@[i] == seed@[32 + i],
        forall|out: [u8; 32]| #[trigger]
            call_ensures(fold_seed, (seed,), out) ==> out@[i] ^ seed@[32 + i] == seed@[i] && out@[i]
                ^ seed@[i] == seed@[32 + i],
{
    let a = seed@[i];
    let b = seed@[i + 32];
    assert((a ^ b) ^ b == a && (a ^ b) ^ a == b) by (bit_vector);
}

/// The generator that the keys of a user are drawn from is fed with the password and
/// the name, or with a mnemonic without a passphrase, folded in half, and with nothing
/// else.
pub proof fn lemma_user_secrets_feed_the_generator<
    S,
    E,
    NewSign: FnOnce(rand_chacha::ChaChaRng) -> (SignKeypair<S>, rand_chacha::ChaChaRng),
    NewEnc: FnOnce(rand_chacha::ChaChaRng) -> (EncKeypair<E>, rand_chacha::ChaChaRng),
    NewSecret: Fn(rand_chacha::ChaChaRng) -> (SharedSecret, rand_chacha::ChaChaRng),
>(
    name: UserName,
    password: &str,
    mnemonic: bip39::Mnemonic,
    passphrase: Seq<char>,
    half: Seq<u8>,
    chain_url: &str,
    new_sign: NewSign,
    new_enc: NewEnc,
    new_secret: NewSecret,
)
    requires
        passphrase.len() == 0,
        half.len() == 32,
        forall|i: int|
            0 <= i < 32 ==> #[trigger] half[i] == bip39_seed(
                mnemonic_words(mnemonic),
                passphrase,
            )[i] ^ bip39_seed(mnemonic_words(mnemonic), passphrase)[32 + i],
    ensures
        forall|keys: UserKeys<S, E>| #[trigger]
            call_ensures(
                UserKeys::<S, E>::new::<NewSign, NewEnc, NewSecret>,
                (name, password, chain_url, new_sign, new_enc, new_secret),
                keys,
            ) ==> {
                &&& keys.name == name
                &&& keys.chain_url@ == chain_url@
                &&& exists|left: rand_chacha::ChaChaRng| #[trigger]
                    drawn_in_turn(
                        chacha_rng(argon2_hash(vstd::utf8::encode_utf8(password@), name.raw@)),
                        new_sign,
                        new_enc,
                        new_secret,
                        keys,
                        left,
                    )
            },
        forall|keys: UserKeys<S, E>| #[trigger]
            call_ensures(
                UserKeys::<S, E>::from_mnemonic::<NewSign, NewEnc, NewSecret>,
                (name, mnemonic, chain_url, new_sign, new_enc, new_secret),
                keys,
            ) ==> {
                &&& keys.name == name
                &&& keys.chain_url@ == chain_url@
                &&& exists|left: rand_chacha::ChaChaRng| #[trigger]
                    drawn_in_turn(
                        chacha_rng(half),
                        new_sign,
                        new_enc,
                        new_secret,
                        keys,
                        left,
                    )
            },
{
    reveal_strlit("");
    assert(passphrase =~= ""@);
    assert forall|keys: UserKeys<S, E>| #[trigger]
        call_ensures(
            UserKeys::<S, E>::new::<NewSign, NewEnc, NewSecret>,
            (name, password, chain_url, new_sign, new_enc, new_secret),
            keys,
        ) implies exists|left: rand_chacha::ChaChaRng| #[trigger]
        drawn_in_turn(
            chacha_rng(argon2_hash(vstd::utf8::encode_utf8(password@), name.raw@)),
            new_sign,
            new_enc,
            new_secret,
            keys,
            left,
        ) by {
        let entropy = chacha_rng(argon2_hash(vstd::utf8::encode_utf8(password@), name.raw@));
        let left = choose|left: rand_chacha::ChaChaRng|
            user_keys_drawn(entropy, new_sign, new_enc, new_secret, keys, left);
        lemma_drawn_in_turn(entropy, new_sign, new_enc, new_secret, keys, left);
    }
    let seed = bip39_seed(mnemonic_words(mnemonic), passphrase);
    assert(folded(seed) =~= half);
    assert forall|keys: UserKeys<S, E>| #[trigger]
        call_ensures(
            UserKeys::<S, E>::from_mnemonic::<NewSign, NewEnc, NewSecret>,
            (name, mnemonic, chain_url, new_sign, new_enc, new_secret),
            keys,
        ) implies exists|left: rand_chacha::ChaChaRng| #[trigger]
        drawn_in_turn(
            chacha_rng(half),
            new_sign,
            new_enc,
            new_secret,
            keys,
            left,
        ) by {
        let entropy = chacha_rng(folded(seed));
        let left = choose|left: rand_chacha::ChaChaRng|
            user_keys_drawn(entropy, new_sign, new_enc, new_secret, keys, left);
        lemma_drawn_in_turn(entropy, new_sign, new_enc, new_secret, keys, left);
    }
}

/// A user is registered under the own name, with the identity and the digest of the
/// key to encrypt to, exactly where the name is free.
pub proof fn lemma_free_names_are_registered<S, E>(keys: UserKeys<S, E>, user_exists: bool)
    ensures
        forall|plan: Result<(RawUserName, Profile), RegisterError>| #[trigger]
            call_ensures(UserKeys::<S, E>::register, (&keys, user_exists), plan) ==> match plan {
                Ok((raw, profile)) => {
                    &&& !user_exists
                    &&& raw == keys.name.raw
                    &&& profile.sign == keys.sign.identity
                    &&& profile.enc@ == hash::blake3_digest(keys.enc.public_key@)
                },
                Err(error) => user_exists && error is NameTaken,
            },
        forall|profile: Profile| #[trigger]
            call_ensures(UserKeys::<S, E>::to_identity, (&keys,), profile) ==> profile.sign
                == keys.sign.identity && profile.enc@ == hash::blake3_digest(
                keys.enc.public_key@,
            ),
        forall|id: Identity| #[trigger]
            call_ensures(UserKeys::<S, E>::identity, (&keys,), id) ==> id == keys.sign.identity,
{
}

/// The name of a direct chat is that of the user, with 32 blanks behind it.
pub proof fn lemma_direct_chat_is_named_after_the_user(name: UserName)
    ensures
        forall|encoded: String| #[trigger]
            call_ensures(encode_direct_chat_name, (&name,), encoded) ==> {
                let n = name.text@.len();
                &&& encoded@.len() == n + 32
                &&& forall|i: int| 0 <= i < n ==> #[trigger] encoded@[i] == name.text@[i]
                &&& forall|i: int| n <= i < n + 32 ==> #[trigger] encoded@[i] == ' '
            },
{
}

/// Random keys of a node are drawn in the same order from the generator of the
/// operating system.
pub proof fn lemma_random_keys_come_in_turn<
    S,
    E,
    NewEnc: FnOnce(rand_core::OsRng) -> (EncKeypair<E>, rand_core::OsRng),
    NewSign: FnOnce(rand_core::OsRng) -> SignKeypair<S>,
>(new_enc: NewEnc, new_sign: NewSign)
    ensures
        forall|keys: NodeKeys<S, E>| #[trigger]
            call_ensures(
                NodeKeys::<S, E>::random::<NewEnc, NewSign>,
                (new_enc, new_sign),
                keys,
            ) ==> exists|rng: rand_core::OsRng, left: rand_core::OsRng|
                {
                    &&& #[trigger] call_ensures(new_enc, (rng,), (keys.enc, left))
                    &&& call_ensures(new_sign, (left,), keys.sign)
                },
{
    assert forall|keys: NodeKeys<S, E>| #[trigger]
        call_ensures(
            NodeKeys::<S, E>::random::<NewEnc, NewSign>,
            (new_enc, new_sign),
            keys,
        ) implies exists|rng: rand_core::OsRng, left: rand_core::OsRng|
        {
            &&& #[trigger] call_ensures(new_enc, (rng,), (keys.enc, left))
            &&& call_ensures(new_sign, (left,), keys.sign)
        } by {
        let rng = choose|rng: rand_core::OsRng| #[trigger]
            node_keys_drawn(rng, new_enc, new_sign, keys);
        let left = choose|left: rand_core::OsRng| #[trigger]
            node_keys_drawn_by_way_of(rng, left, new_enc, new_sign, keys);
        assert(call_ensures(new_enc, (rng,), (keys.enc, left)));
    }
}

} // verus!
