//! Framing of encrypted data: the cipher text with its authentication tag
//! behind it.
//!
//! The cipher itself is handed in. `seal` encrypts a buffer in place and gives
//! the tag; `open` decrypts a buffer in place and gives the length of the plain
//! text that now stands at its front, or nothing where the tag does not match.

use crate::keys::SharedSecret;
use crate::text;
use crate::wire;
use std::marker::PhantomData;
use vstd::prelude::*;

verus! {

/// Data that could not be decrypted.
#[derive(Debug)]
pub struct DecryptError(pub Vec<u8>);

impl DecryptError {
    /// What the user reads of the error: the data, byte by byte.
    pub fn message(&self) -> (message: String)
        ensures
            message@ == "failed to decrypt data: "@ + text::listed(self.0@),
    {
        let mut message: String = "failed to decrypt data: ".to_owned();
        text::push_listed(&mut message, &self.0);
        message
    }
}

/// `sealed` is `data` encrypted in place with the tag appended.
pub open spec fn is_sealed<Seal: FnOnce(Vec<u8>, SharedSecret) -> (Vec<u8>, Vec<u8>)>(
    seal: Seal,
    data: Vec<u8>,
    secret: SharedSecret,
    sealed: Seq<u8>,
) -> bool {
    exists|text: Vec<u8>, tag: Vec<u8>| #[trigger]
        call_ensures(seal, (data, secret), (text, tag)) && sealed == text@ + tag@
}

/// Encrypts `data` and appends the tag.
pub fn encrypt<Seal: FnOnce(Vec<u8>, SharedSecret) -> (Vec<u8>, Vec<u8>)>(
    data: Vec<u8>,
    secret: SharedSecret,
    seal: Seal,
) -> (sealed: Vec<u8>)
    requires
        call_requires(seal, (data, secret)),
    ensures
        is_sealed(seal, data, secret, sealed@),
{
    let (mut text, tag) = seal(data, secret);
    let ghost cipher_text = text;
    assert(call_ensures(seal, (data, secret), (cipher_text, tag)));
    wire::extend(&mut text, &tag);
    text
}

/// Decrypts `data`. What comes back is the plain text alone; where the tag does
/// not match, the error holds the buffer as `open` left it.
pub fn decrypt<Open: FnOnce(Vec<u8>, SharedSecret) -> (Vec<u8>, Option<usize>)>(
    data: Vec<u8>,
    secret: SharedSecret,
    open: Open,
) -> (opened: Result<Vec<u8>, DecryptError>)
    requires
        call_requires(open, (data, secret)),
        forall|buffer: Vec<u8>, len: usize|
            call_ensures(open, (data, secret), (buffer, Some(len))) ==> len <= buffer@.len(),
    ensures
        match opened {
            Ok(plain) => exists|buffer: Vec<u8>, len: usize| #[trigger]
                call_ensures(open, (data, secret), (buffer, Some(len))) && plain@ == buffer@.take(
                    len as int,
                ),
            Err(DecryptError(buffer)) => call_ensures(open, (data, secret), (buffer, None)),
        },
{
    let (mut buffer, plain) = open(data, secret);
    match plain {
        Some(len) => {
            let ghost whole = buffer;
            assert(call_ensures(open, (data, secret), (whole, Some(len))));
            buffer.truncate(len);
            assert(buffer@ =~= whole@.take(len as int));
            Ok(buffer)
        },
        None => Err(DecryptError(buffer)),
    }
}

/// A value of `T` that only the holder of a secret can read.
pub struct Encrypted<T>(pub Vec<u8>, pub PhantomData<T>);

impl<T> Encrypted<T> {
    /// Encodes and encrypts a value.
    pub fn new<
        Encode: FnOnce(T) -> Vec<u8>,
        Seal: FnOnce(Vec<u8>, SharedSecret) -> (Vec<u8>, Vec<u8>),
    >(data: T, secret: SharedSecret, encode: Encode, seal: Seal) -> (encrypted: Self)
        requires
            call_requires(encode, (data,)),
            forall|bytes: Vec<u8>| call_requires(seal, (bytes, secret)),
        ensures
            exists|bytes: Vec<u8>| #[trigger]
                call_ensures(encode, (data,), bytes) && is_sealed(
                    seal,
                    bytes,
                    secret,
                    encrypted.0@,
                ),
    {
        let bytes = encode(data);
        Encrypted(encrypt(bytes, secret, seal), PhantomData)
    }

    /// Decrypts and decodes the value, where both succeed. The buffer is
    /// decrypted in place and stays so.
    pub fn decrypt<
        Open: FnOnce(Vec<u8>, SharedSecret) -> (Vec<u8>, Option<usize>),
        Decode: FnOnce(Vec<u8>) -> Option<T>,
    >(&mut self, secret: SharedSecret, open: Open, decode: Decode) -> (value: Option<T>)
        requires
            call_requires(open, (old(self).0, secret)),
            forall|buffer: Vec<u8>, len: usize|
                call_ensures(open, (old(self).0, secret), (buffer, Some(len))) ==> len
                    <= buffer@.len(),
            forall|buffer: Vec<u8>, len: usize, bytes: Vec<u8>|
                #![trigger call_ensures(open, (old(self).0, secret), (buffer, Some(len))), call_requires(decode, (bytes,))]
                call_ensures(open, (old(self).0, secret), (buffer, Some(len))) && bytes@
                    == buffer@.take(len as int) ==> call_requires(decode, (bytes,)),
        ensures
            exists|plain: Option<usize>| #[trigger]
                call_ensures(open, (old(self).0, secret), (final(self).0, plain)) && match plain {
                    Some(len) => exists|bytes: Vec<u8>|
                        bytes@ == final(self).0@.take(len as int) && #[trigger] call_ensures(
                            decode,
                            (bytes,),
                            value,
                        ),
                    None => value is None,
                },
    {
        let ghost before = self.0;
        let mut data: Vec<u8> = Vec::new();
        std::mem::swap(&mut data, &mut self.0);
        let (buffer, plain) = open(data, secret);
        self.0 = buffer;
        assert(call_ensures(open, (before, secret), (self.0, plain)));
        match plain {
            Some(len) => {
                let mut bytes: Vec<u8> = Vec::new();
                wire::extend(&mut bytes, &self.0);
                bytes.truncate(len);
                assert(bytes@ =~= self.0@.take(len as int));
                decode(bytes)
            },
            None => None,
        }
    }
}

/// Whoever holds the secret reads what was written: where `open` undoes `seal`
/// on a buffer, opening the sealed bytes gives back the plain text.
pub proof fn lemma_open_undoes_seal<
    Seal: FnOnce(Vec<u8>, SharedSecret) -> (Vec<u8>, Vec<u8>),
    Open: FnOnce(Vec<u8>, SharedSecret) -> (Vec<u8>, Option<usize>),
>(
    seal: Seal,
    open: Open,
    data: Vec<u8>,
    secret: SharedSecret,
    sealed: Vec<u8>,
    opened: Result<Vec<u8>, DecryptError>,
)
    requires
        is_sealed(seal, data, secret, sealed@),
        // The cipher: opening a text with its tag gives the data back.
        forall|text: Vec<u8>, tag: Vec<u8>, input: Vec<u8>, buffer: Vec<u8>, plain: Option<usize>|
            call_ensures(seal, (data, secret), (text, tag)) && input@ == text@ + tag@
                && call_ensures(open, (input, secret), (buffer, plain)) ==> {
                &&& plain matches Some(len) && len == data@.len()
                &&& buffer@.len() >= data@.len()
                &&& buffer@.take(data@.len() as int) == data@
            },
        // What `decrypt` states of its result.
        match opened {
            Ok(plain) => exists|buffer: Vec<u8>, len: usize| #[trigger]
                call_ensures(open, (sealed, secret), (buffer, Some(len))) && plain@
                    == buffer@.take(len as int),
            Err(DecryptError(buffer)) => call_ensures(open, (sealed, secret), (buffer, None)),
        },
    ensures
        opened is Ok,
        opened->Ok_0@ == data@,
{
    let (text, tag) = choose|text: Vec<u8>, tag: Vec<u8>| #[trigger]
        call_ensures(seal, (data, secret), (text, tag)) && sealed@ == text@ + tag@;
    assert(call_ensures(seal, (data, secret), (text, tag)));
    match opened {
        Ok(plain) => {
            let (buffer, len) = choose|buffer: Vec<u8>, len: usize| #[trigger]
                call_ensures(open, (sealed, secret), (buffer, Some(len))) && plain@
                    == buffer@.take(len as int);
            assert(call_ensures(open, (sealed, secret), (buffer, Some(len))));
        },
        Err(DecryptError(buffer)) => {
            assert(call_ensures(open, (sealed, secret), (buffer, None)));
        },
    }
}

/// `whole` is `front` with `back` behind it.
pub open spec fn follows(whole: Seq<u8>, front: Seq<u8>, back: Seq<u8>) -> bool {
    &&& whole.len() == front.len() + back.len()
    &&& forall|i: int| 0 <= i < front.len() ==> #[trigger] whole[i] == front[i]
    &&& forall|i: int| 0 <= i < back.len() ==> whole[front.len() + i] == #[trigger] back[i]
}

/// Sealed data is the cipher text, whole, with its whole tag behind it, and what is
/// sealed of a value is its encoding.
pub proof fn lemma_tag_comes_behind<
    T,
    Encode: FnOnce(T) -> Vec<u8>,
    Seal: FnOnce(Vec<u8>, SharedSecret) -> (Vec<u8>, Vec<u8>),
>(data: Vec<u8>, value: T, secret: SharedSecret, encode: Encode, seal: Seal)
    ensures
        forall|sealed: Vec<u8>| #[trigger]
            call_ensures(encrypt::<Seal>, (data, secret, seal), sealed) ==> exists|
                text: Vec<u8>,
                tag: Vec<u8>,
            | #[trigger]
                call_ensures(seal, (data, secret), (text, tag)) && follows(sealed@, text@, tag@),
        forall|encrypted: Encrypted<T>| #[trigger]
            call_ensures(
                Encrypted::<T>::new::<Encode, Seal>,
                (value, secret, encode, seal),
                encrypted,
            ) ==> exists|bytes: Vec<u8>, text: Vec<u8>, tag: Vec<u8>|
                {
                    &&& call_ensures(encode, (value,), bytes)
                    &&& #[trigger] call_ensures(seal, (bytes, secret), (text, tag))
                    &&& follows(encrypted.0@, text@, tag@)
                },
{
    assert forall|sealed: Vec<u8>| #[trigger]
        call_ensures(encrypt::<Seal>, (data, secret, seal), sealed) implies exists|
        text: Vec<u8>,
        tag: Vec<u8>,
    | #[trigger]
        call_ensures(seal, (data, secret), (text, tag)) && follows(sealed@, text@, tag@) by {
        let (text, tag) = choose|text: Vec<u8>, tag: Vec<u8>| #[trigger]
            call_ensures(seal, (data, secret), (text, tag)) && sealed@ == text@ + tag@;
        assert(call_ensures(seal, (data, secret), (text, tag)));
    }
    assert forall|encrypted: Encrypted<T>| #[trigger]
        call_ensures(
            Encrypted::<T>::new::<Encode, Seal>,
            (value, secret, encode, seal),
            encrypted,
        ) implies exists|bytes: Vec<u8>, text: Vec<u8>, tag: Vec<u8>|
        {
            &&& call_ensures(encode, (value,), bytes)
            &&& #[trigger] call_ensures(seal, (bytes, secret), (text, tag))
            &&& follows(encrypted.0@, text@, tag@)
        } by {
        let bytes = choose|bytes: Vec<u8>| #[trigger]
            call_ensures(encode, (value,), bytes) && is_sealed(seal, bytes, secret, encrypted.0@);
        let (text, tag) = choose|text: Vec<u8>, tag: Vec<u8>| #[trigger]
            call_ensures(seal, (bytes, secret), (text, tag)) && encrypted.0@ == text@ + tag@;
        assert(call_ensures(seal, (bytes, secret), (text, tag)));
    }
}

/// What is opened is the front of the buffer, as much of it as there is plain text,
/// and nothing is opened where the tag does not match. A value is what that decodes
/// to, and the buffer stays as it was decrypted.
pub proof fn lemma_plain_text_stands_in_front<
    T,
    Open: FnOnce(Vec<u8>, SharedSecret) -> (Vec<u8>, Option<usize>),
    Decode: FnOnce(Vec<u8>) -> Option<T>,
>(data: Vec<u8>, secret: SharedSecret, open: Open, decode: Decode)
    requires
        forall|input: Vec<u8>, buffer: Vec<u8>, len: usize| #[trigger]
            call_ensures(open, (input, secret), (buffer, Some(len))) ==> len <= buffer@.len(),
    ensures
        forall|opened: Result<Vec<u8>, DecryptError>| #[trigger]
            call_ensures(decrypt::<Open>, (data, secret, open), opened) ==> match opened {
                Ok(plain) => exists|buffer: Vec<u8>, len: usize|
                    {
                        &&& #[trigger] call_ensures(open, (data, secret), (buffer, Some(len)))
                        &&& plain@.len() == len
                        &&& forall|i: int| 0 <= i < len ==> #[trigger] plain@[i] == buffer@[i]
                    },
                Err(DecryptError(buffer)) => call_ensures(open, (data, secret), (buffer, None)),
            },
        forall|encrypted: &mut Encrypted<T>, value: Option<T>| #[trigger]
            call_ensures(
                Encrypted::<T>::decrypt::<Open, Decode>,
                (encrypted, secret, open, decode),
                value,
            ) ==> exists|plain: Option<usize>|
                {
                    &&& #[trigger] call_ensures(
                        open,
                        (encrypted.0, secret),
                        (final(encrypted).0, plain),
                    )
                    &&& value is Some ==> plain is Some
                    &&& plain matches Some(len) ==> exists|bytes: Vec<u8>|
                        {
                            &&& #[trigger] call_ensures(decode, (bytes,), value)
                            &&& bytes@.len() == len
                            &&& forall|i: int|
                                0 <= i < len ==> #[trigger] bytes@[i] == final(encrypted).0@[i]
                        }
                },
{
    assert forall|opened: Result<Vec<u8>, DecryptError>| #[trigger]
        call_ensures(decrypt::<Open>, (data, secret, open), opened) implies match opened {
        Ok(plain) => exists|buffer: Vec<u8>, len: usize|
            {
                &&& #[trigger] call_ensures(open, (data, secret), (buffer, Some(len)))
                &&& plain@.len() == len
                &&& forall|i: int| 0 <= i < len ==> #[trigger] plain@[i] == buffer@[i]
            },
        Err(DecryptError(buffer)) => call_ensures(open, (data, secret), (buffer, None)),
    } by {
        if let Ok(plain) = opened {
            let (buffer, len) = choose|buffer: Vec<u8>, len: usize| #[trigger]
                call_ensures(open, (data, secret), (buffer, Some(len))) && plain@ == buffer@.take(
                    len as int,
                );
            assert(call_ensures(open, (data, secret), (buffer, Some(len))));
        }
    }
    assert forall|encrypted: &mut Encrypted<T>, value: Option<T>| #[trigger]
        call_ensures(
            Encrypted::<T>::decrypt::<Open, Decode>,
            (encrypted, secret, open, decode),
            value,
        ) implies exists|plain: Option<usize>|
        {
            &&& #[trigger] call_ensures(open, (encrypted.0, secret), (final(encrypted).0, plain))
            &&& value is Some ==> plain is Some
            &&& plain matches Some(len) ==> exists|bytes: Vec<u8>|
                {
                    &&& #[trigger] call_ensures(decode, (bytes,), value)
                    &&& bytes@.len() == len
                    &&& forall|i: int|
                        0 <= i < len ==> #[trigger] bytes@[i] == final(encrypted).0@[i]
                }
        } by {
        let after = final(encrypted).0;
        let plain = choose|plain: Option<usize>| #[trigger]
            call_ensures(open, (encrypted.0, secret), (after, plain)) && match plain {
                Some(len) => exists|bytes: Vec<u8>|
                    bytes@ == after@.take(len as int) && #[trigger] call_ensures(
                        decode,
                        (bytes,),
                        value,
                    ),
                None => value is None,
            };
        assert(call_ensures(open, (encrypted.0, secret), (after, plain)));
        if let Some(len) = plain {
            assert(call_ensures(open, (encrypted.0, secret), (after, Some(len))));
            let bytes = choose|bytes: Vec<u8>|
                bytes@ == after@.take(len as int) && #[trigger] call_ensures(
                    decode,
                    (bytes,),
                    value,
                );
            assert(call_ensures(decode, (bytes,), value));
        }
    }
}

/// The error shows every byte of the data that could not be decrypted.
pub proof fn lemma_error_shows_the_data(data: Vec<u8>)
    ensures
        forall|message: String| #[trigger]
            call_ensures(DecryptError::message, (&DecryptError(data),), message) ==> exists|
                shown: Seq<char>,
                texts: Seq<Seq<char>>,
            | #[trigger]
                text::lists_bytes(shown, data@, texts) && message@ == "failed to decrypt data: "@
                    + shown,
{
    text::lemma_bytes_are_listed(data);
}

} // verus!
