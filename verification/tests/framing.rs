use orion::ids::Topic;
use orion::wire::{extend, frame, from_be, from_le, to_be, to_le, RequestHeader, ResponseHeader};

#[test]
fn lengths_have_four_bytes_in_either_order() {
    assert_eq!(to_le(0x0102_0304), [4, 3, 2, 1]);
    assert_eq!(to_be(0x0102_0304), [1, 2, 3, 4]);
    assert_eq!(from_le([4, 3, 2, 1]), 0x0102_0304);
    assert_eq!(from_be([1, 2, 3, 4]), 0x0102_0304);
}

#[test]
fn only_the_low_bits_of_a_length_survive() {
    assert_eq!(to_le(0x5_0000_0001), [1, 0, 0, 0]);
    assert_eq!(to_be(0x5_0000_0001), [0, 0, 0, 1]);
    assert_eq!(from_be(to_be(0xFFFF_FFFF)), 0xFFFF_FFFF);
    assert_eq!(from_le(to_le(0)), 0);
}

#[test]
fn request_header_announces_the_body() {
    let header = RequestHeader::new(7, Topic::Chat([1; 32]), 300);
    assert_eq!(header.prefix, 7);
    assert_eq!(header.call_id, [0; 4]);
    assert_eq!(header.len, [0, 0, 1, 44]);
    assert_eq!(header.get_len(), 300);
    assert!(matches!(header.topic, Topic::Chat(name) if name == [1; 32]));
}

#[test]
fn response_header_announces_the_body() {
    let header = ResponseHeader::new([1, 2, 3, 4], 65536);
    assert_eq!(header.call_id, [1, 2, 3, 4]);
    assert_eq!(header.len, [0, 1, 0, 0]);
    assert_eq!(header.get_len(), 65536);
}

#[test]
fn frames_are_read_back() {
    let body = vec![9u8; 300];
    let mut pipe = frame(&body);
    assert_eq!(pipe[..4], [44, 1, 0, 0]);
    pipe.extend([1, 2, 3]);
    let len = from_le(pipe[..4].try_into().unwrap());
    assert_eq!(pipe[4..4 + len], body);
    assert_eq!(pipe[4 + len..], [1, 2, 3]);
}

#[test]
fn empty_frames_hold_the_length_alone() {
    assert_eq!(frame(&vec![]), vec![0, 0, 0, 0]);
}

#[test]
fn extending_appends() {
    let mut out = vec![1];
    extend(&mut out, &[2, 3]);
    assert_eq!(out, vec![1, 2, 3]);
}
