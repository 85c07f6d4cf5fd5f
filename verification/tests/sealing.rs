use orion::seal::{decrypt, encrypt, DecryptError, Encrypted};
use std::marker::PhantomData;

const SECRET: [u8; 32] = [3; 32];

// A toy cipher: adds the secret to every byte, the tag is the sum of all bytes.
fn seal(mut data: Vec<u8>, secret: [u8; 32]) -> (Vec<u8>, Vec<u8>) {
    let tag = data.iter().fold(0u8, |a, b| a.wrapping_add(*b));
    data.iter_mut().for_each(|b| *b = b.wrapping_add(secret[0]));
    (data, vec![tag])
}

fn open(mut data: Vec<u8>, secret: [u8; 32]) -> (Vec<u8>, Option<usize>) {
    if data.is_empty() {
        return (data, None);
    }
    let len = data.len() - 1;
    data[..len].iter_mut().for_each(|b| *b = b.wrapping_sub(secret[0]));
    let tag = data[..len].iter().fold(0u8, |a, b| a.wrapping_add(*b));
    let ok = tag == data[len];
    (data, if ok { Some(len) } else { None })
}

#[test]
fn tag_goes_behind_the_cipher_text() {
    assert_eq!(encrypt(vec![1, 2, 3], SECRET, seal), vec![4, 5, 6, 6]);
}

#[test]
fn decrypting_gives_back_what_was_encrypted() {
    let sealed = encrypt(b"hello".to_vec(), SECRET, seal);
    assert_eq!(decrypt(sealed, SECRET, open).unwrap(), b"hello".to_vec());
    let empty = encrypt(Vec::new(), SECRET, seal);
    assert_eq!(decrypt(empty, SECRET, open).unwrap(), Vec::<u8>::new());
}

#[test]
fn wrong_tag_is_refused_with_the_data() {
    let error = decrypt(vec![4, 5, 6, 9], SECRET, open).unwrap_err();
    assert_eq!(error.0, vec![1, 2, 3, 9]);
    assert_eq!(error.message(), "failed to decrypt data: [1, 2, 3, 9]");
}

#[test]
fn message_lists_no_bytes_and_one_byte() {
    assert_eq!(DecryptError(vec![]).message(), "failed to decrypt data: []");
    assert_eq!(DecryptError(vec![255]).message(), "failed to decrypt data: [255]");
}

#[test]
fn values_are_encoded_and_decoded() {
    let mut encrypted: Encrypted<u16> =
        Encrypted::new(0x0102, SECRET, |n| n.to_be_bytes().to_vec(), seal);
    assert_eq!(encrypted.0, vec![4, 5, 3]);
    let decode = |bytes: Vec<u8>| Some(u16::from_be_bytes(bytes.try_into().ok()?));
    assert_eq!(encrypted.decrypt(SECRET, open, decode), Some(0x0102));
}

#[test]
fn values_that_do_not_open_or_decode_are_none() {
    let decode = |bytes: Vec<u8>| Some(u16::from_be_bytes(bytes.try_into().ok()?));
    let mut broken: Encrypted<u16> = Encrypted(vec![1, 2, 3], PhantomData);
    assert_eq!(broken.decrypt(SECRET, open, decode), None);
    let mut long: Encrypted<u16> = Encrypted(encrypt(vec![1, 2, 3], SECRET, seal), PhantomData);
    assert_eq!(long.decrypt(SECRET, open, decode), None);
}
