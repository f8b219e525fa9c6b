use hyrax::names::{decode_short_name, utf16_to_utf8};

fn short(raw: &[u8; 11]) -> String {
    let decoded = decode_short_name(&raw.to_vec());
    String::from_utf8(decoded).unwrap()
}

#[test]
fn short_name_with_extension() {
    assert_eq!(short(b"HELLO   TXT"), "HELLO.TXT");
}

#[test]
fn short_name_full_base_and_extension() {
    assert_eq!(short(b"ABCDEFGHIJK"), "ABCDEFGH.IJK");
}

#[test]
fn short_name_without_extension() {
    assert_eq!(short(b"HELLO      "), "HELLO");
}

#[test]
fn short_name_single_character() {
    assert_eq!(short(b"A          "), "A");
}

#[test]
fn short_name_keeps_leading_character_and_order() {
    // natural left-to-right order: no reversal, no dropped first byte
    assert_eq!(short(b"AB C    D E"), "AB C.D E");
    assert_eq!(short(b"X       YZ "), "X.YZ");
}

#[test]
fn short_name_empty() {
    assert_eq!(short(b"           "), "");
}

#[test]
fn short_name_extension_lengths() {
    assert_eq!(short(b"BASE    A  "), "BASE.A");
    assert_eq!(short(b"BASE    AB "), "BASE.AB");
    assert_eq!(short(b"BASE    ABC"), "BASE.ABC");
}

#[test]
fn utf16_ascii_round_trip() {
    let units: Vec<u16> = "hello world".encode_utf16().collect();
    let out = utf16_to_utf8(&units).unwrap();
    assert_eq!(out, "hello world".as_bytes());
}

#[test]
fn utf16_non_ascii_round_trip() {
    let text = "h\u{E9}llo w\u{F6}rld \u{4E16}\u{754C}";
    let units: Vec<u16> = text.encode_utf16().collect();
    let out = utf16_to_utf8(&units).unwrap();
    assert_eq!(out, text.as_bytes());
}

#[test]
fn utf16_surrogate_pair_round_trip() {
    let text = "a\u{1F600}b";
    let units: Vec<u16> = text.encode_utf16().collect();
    assert_eq!(units.len(), 4);
    let out = utf16_to_utf8(&units).unwrap();
    assert_eq!(out, text.as_bytes());
}

#[test]
fn utf16_unpaired_surrogate_is_rejected() {
    assert_eq!(utf16_to_utf8(&vec![0x0041, 0xD800]), None);
    assert_eq!(utf16_to_utf8(&vec![0xDC00, 0x0041]), None);
    assert_eq!(utf16_to_utf8(&vec![0xD800, 0x0041]), None);
}

#[test]
fn utf16_empty() {
    assert_eq!(utf16_to_utf8(&Vec::new()), Some(Vec::new()));
}
