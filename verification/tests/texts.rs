use orion::text::{push_decimal, push_listed, to_hex};

#[test]
fn numbers_in_decimal() {
    for n in [0, 9, 10, 99, 100, 1234567890, u64::MAX] {
        let mut text = "n=".to_owned();
        push_decimal(&mut text, n);
        assert_eq!(text, format!("n={n}"));
    }
}

#[test]
fn bytes_in_hexadecimal() {
    let bytes: Vec<u8> = (0..=255).collect();
    let expected: String = bytes.iter().map(|b| format!("{b:02x}")).collect();
    assert_eq!(to_hex(&bytes), expected);
    assert_eq!(to_hex(&vec![]), "");
}

#[test]
fn bytes_as_a_list() {
    for bytes in [vec![], vec![7], vec![1, 22, 255]] {
        let mut text = String::new();
        push_listed(&mut text, &bytes);
        assert_eq!(text, format!("{bytes:?}"));
    }
}
