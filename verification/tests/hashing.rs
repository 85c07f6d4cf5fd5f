use orion::hash;
use orion::hash::HashBuffer;

fn hex(bytes: &[u8]) -> String {
    orion::text::to_hex(&bytes.to_vec())
}

#[test]
fn digest_of_nothing_is_the_known_one() {
    assert_eq!(
        hex(&hash::new(b"")),
        "af1349b9f5f9a1a6a0404dea36dcc9499bcb25c9adc112b7cc9a93cae41f3262"
    );
    assert_eq!(hash::SIZE, 32);
}

#[test]
fn digest_of_abc_is_the_known_one() {
    assert_eq!(
        hex(&hash::new(b"abc")),
        "6437b3ac38465133ffb63b75273a8db548c558465d79db03fd359c6cd5bd9d85"
    );
}

#[test]
fn combine_hashes_both_in_order() {
    let left = [1u8; 32];
    let right = [2u8; 32];
    let mut both = left.to_vec();
    both.extend(right);
    assert_eq!(hash::combine(left, right), hash::new(&both));
    assert_ne!(hash::combine(left, right), hash::combine(right, left));
}

#[test]
fn nonce_goes_behind_the_data_in_big_endian() {
    let mut all = b"data".to_vec();
    all.extend(0x0102_0304_0506_0708u64.to_be_bytes());
    assert_eq!(hash::with_nonce(b"data", 0x0102_0304_0506_0708), hash::new(&all));
    assert_ne!(hash::with_nonce(b"data", 1), hash::with_nonce(b"data", 256));
}

#[test]
fn nonce_of_all_ones() {
    let mut all = Vec::new();
    all.extend(u64::MAX.to_be_bytes());
    assert_eq!(hash::with_nonce(b"", u64::MAX), hash::new(&all));
}

#[test]
fn value_goes_behind_the_key() {
    assert_eq!(hash::kv(b"key", b"value"), hash::new(b"keyvalue"));
}

#[test]
fn cuts_do_not_show() {
    let mut buffer = HashBuffer::default();
    assert_eq!(buffer.extend_from_slice(b"ke"), Some(()));
    assert_eq!(buffer.push(b'y'), Some(()));
    assert_eq!(buffer.extend_from_slice(b""), Some(()));
    assert_eq!(buffer.extend_from_slice(b"value"), Some(()));
    assert_eq!(buffer.into_hash(), hash::new(b"keyvalue"));
}

#[test]
fn empty_buffer_has_the_digest_of_nothing() {
    assert_eq!(HashBuffer::default().into_hash(), hash::new(b""));
}

#[test]
fn reading_in_chunks_hashes_all_that_was_read() {
    let data: Vec<u8> = (0..250u32).map(|i| i as u8).collect();
    let source = data.clone();
    let asked = std::cell::RefCell::new(Vec::new());
    let reader = |at: usize, n: usize| {
        asked.borrow_mut().push((at, n));
        Ok::<Vec<u8>, &str>(source[at..at + n].to_vec())
    };
    let digest = hash::read::<100, _, _>(reader, data.len());
    assert_eq!(digest, Ok(hash::new(&data)));
    assert_eq!(*asked.borrow(), vec![(0, 100), (100, 100), (200, 50)]);
}

#[test]
fn reading_less_than_there_is_stops_there() {
    let data = vec![7u8; 64];
    let reader = |at: usize, n: usize| Ok::<Vec<u8>, &str>(data[at..at + n].to_vec());
    assert_eq!(hash::read::<32, _, _>(reader, 40), Ok(hash::new(&[7u8; 40])));
}

#[test]
fn reading_nothing_asks_for_nothing() {
    let reader = |_: usize, _: usize| -> Result<Vec<u8>, &str> { panic!("asked") };
    assert_eq!(hash::read::<0, _, _>(reader, 0), Ok(hash::new(b"")));
}

#[test]
fn first_read_error_ends_the_reading() {
    let reader =
        |at: usize, n: usize| if at < 20 { Ok(vec![0u8; n]) } else { Err(format!("at {at}")) };
    assert_eq!(hash::read::<10, _, _>(reader, 50), Err("at 20".to_owned()));
}
