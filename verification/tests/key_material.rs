use orion::hash;
use orion::keys::{
    encode_direct_chat_name, fold_seed, EncKeypair, NodeKeys, RegisterError, SignKeypair, UserKeys,
    UserName,
};
use rand_chacha::ChaChaRng;
use rand_core::{OsRng, RngCore, SeedableRng};

fn draw<G: RngCore>(rng: &mut G) -> [u8; 32] {
    let mut bytes = [0u8; 32];
    rng.fill_bytes(&mut bytes);
    bytes
}

fn new_enc<G: RngCore>(mut rng: G) -> (EncKeypair<u8>, G) {
    let public_key = draw(&mut rng).to_vec();
    (EncKeypair { pair: 1, public_key }, rng)
}

fn new_sign<G: RngCore>(mut rng: G) -> (SignKeypair<u8>, G) {
    let identity = draw(&mut rng);
    (SignKeypair { pair: 2, identity }, rng)
}

fn new_secret<G: RngCore>(mut rng: G) -> ([u8; 32], G) {
    let secret = draw(&mut rng);
    (secret, rng)
}

fn mnemonic() -> bip39::Mnemonic {
    let phrase = "abandon abandon abandon abandon abandon abandon abandon abandon abandon abandon abandon about";
    phrase.parse().unwrap()
}

fn name(text: &str) -> UserName {
    let mut raw = [0u8; 32];
    raw[..text.len()].copy_from_slice(text.as_bytes());
    UserName { text: text.to_owned(), raw }
}

fn user(name: UserName, password: &str) -> UserKeys<u8, u8> {
    UserKeys::new(
        name,
        password,
        "ws://chain",
        new_sign::<ChaChaRng>,
        new_enc::<ChaChaRng>,
        new_secret::<ChaChaRng>,
    )
}

#[test]
fn node_keys_come_from_the_hashed_seed_of_the_mnemonic() {
    let keys: NodeKeys<u8, u8> =
        NodeKeys::from_mnemonic(&mnemonic(), new_enc, |rng| new_sign(rng).0);
    let mut rng = ChaChaRng::from_seed(hash::new(&mnemonic().to_seed("")));
    let public_key = draw(&mut rng);
    let identity = draw(&mut rng);
    assert_eq!(keys.enc.public_key, public_key.to_vec());
    assert_eq!(keys.sign.identity, identity);
    assert_eq!(keys.identity(), identity);
    assert_eq!(keys.enc_hash(), hash::new(&public_key));
}

#[test]
fn node_keys_are_recovered_from_the_mnemonic() {
    let make = || -> NodeKeys<u8, u8> {
        NodeKeys::from_mnemonic(&mnemonic(), new_enc, |rng| new_sign(rng).0)
    };
    let (lost, found) = (make(), make());
    assert_eq!(lost.sign.identity, found.sign.identity);
    assert_eq!(lost.enc.public_key, found.enc.public_key);
}

#[test]
fn seed_of_the_known_mnemonic() {
    assert_eq!(
        orion::text::to_hex(&mnemonic().to_seed("").to_vec())[..32],
        *"5eb00bbddcf069084889a8ab91555681"
    );
}

#[test]
fn random_node_keys_differ() {
    let make =
        || -> NodeKeys<u8, u8> { NodeKeys::random(new_enc::<OsRng>, |rng| new_sign(rng).0) };
    assert_ne!(make().identity(), make().identity());
}

#[test]
fn user_keys_are_drawn_in_order_from_the_salted_password() {
    let keys = user(name("mlok"), "heslo");
    let mut seed = [0u8; 32];
    argon2::Argon2::default()
        .hash_password_into(b"heslo", &name("mlok").raw, &mut seed)
        .unwrap();
    let mut rng = ChaChaRng::from_seed(seed);
    assert_eq!(keys.identity(), draw(&mut rng));
    assert_eq!(keys.enc.public_key, draw(&mut rng).to_vec());
    assert_eq!(keys.vault, draw(&mut rng));
    assert_eq!(keys.hot_wallet, draw(&mut rng));
    assert_eq!(keys.name.text, "mlok");
    assert_eq!(keys.chain_url, "ws://chain");
}

#[test]
fn user_keys_are_recovered_from_name_and_password() {
    let (lost, found) = (user(name("mlok"), "heslo"), user(name("mlok"), "heslo"));
    assert_eq!(lost.identity(), found.identity());
    assert_eq!(lost.vault, found.vault);
    assert_eq!(lost.hot_wallet, found.hot_wallet);
    assert_ne!(lost.identity(), user(name("mlok"), "other").identity());
    assert_ne!(lost.identity(), user(name("other"), "heslo").identity());
}

#[test]
fn user_keys_from_a_mnemonic_use_the_folded_seed() {
    let keys: UserKeys<u8, u8> = UserKeys::from_mnemonic(
        name("mlok"),
        mnemonic(),
        "url",
        new_sign::<ChaChaRng>,
        new_enc::<ChaChaRng>,
        new_secret::<ChaChaRng>,
    );
    let seed = mnemonic().to_seed("");
    let folded: [u8; 32] = std::array::from_fn(|i| seed[i] ^ seed[i + 32]);
    let mut rng = ChaChaRng::from_seed(folded);
    assert_eq!(keys.identity(), draw(&mut rng));
}

#[test]
fn entropy_is_handed_back_after_four_draws() {
    let rng = ChaChaRng::from_seed([9; 32]);
    let (_, mut left): (UserKeys<u8, u8>, ChaChaRng) =
        UserKeys::new_from_entropy(name("a"), rng, "", new_sign, new_enc, new_secret);
    let mut reference = ChaChaRng::from_seed([9; 32]);
    for _ in 0..4 {
        draw(&mut reference);
    }
    assert_eq!(draw(&mut left), draw(&mut reference));
}

#[test]
fn folding_combines_the_halves() {
    let mut seed = [0u8; 64];
    seed[0] = 0b1100;
    seed[32] = 0b1010;
    seed[31] = 255;
    seed[63] = 255;
    let folded = fold_seed(seed);
    assert_eq!(folded[0], 0b0110);
    assert_eq!(folded[31], 0);
}

#[test]
fn profile_holds_identity_and_key_digest() {
    let keys = user(name("mlok"), "heslo");
    let profile = keys.to_identity();
    assert_eq!(profile.sign, keys.sign.identity);
    assert_eq!(profile.enc, hash::new(&keys.enc.public_key));
}

#[test]
fn taken_names_are_not_registered() {
    let keys = user(name("mlok"), "heslo");
    assert!(matches!(keys.register(true), Err(RegisterError::NameTaken)));
    assert_eq!(RegisterError::NameTaken.message(), "user with this name already exists");
    let (raw, profile) = keys.register(false).unwrap();
    assert_eq!(raw, name("mlok").raw);
    assert_eq!(profile.sign, keys.identity());
}

#[test]
fn direct_chats_are_named_after_the_user() {
    let encoded = encode_direct_chat_name(&name("mlok"));
    assert_eq!(encoded, format!("mlok{}", " ".repeat(32)));
    assert_ne!(encoded, encode_direct_chat_name(&name("kolm")));
    assert!(encoded.len() > 32);
}
