use meme_guard::codec::{from_binary_to_hex, from_hex_to_binary, EncodingError};

#[test]
fn binary_to_hex_groups_of_four() {
    assert_eq!(from_binary_to_hex("0000000110101111").unwrap(), "01AF");
}

#[test]
fn binary_to_hex_short_last_group() {
    assert_eq!(from_binary_to_hex("111110").unwrap(), "F2");
}

#[test]
fn binary_to_hex_empty() {
    assert_eq!(from_binary_to_hex("").unwrap(), "");
}

#[test]
fn binary_to_hex_rejects_non_bits() {
    assert_eq!(from_binary_to_hex("0102"), Err(EncodingError { position: 3 }));
    assert_eq!(from_binary_to_hex("+101"), Err(EncodingError { position: 0 }));
}

#[test]
fn hex_to_binary_both_cases() {
    assert_eq!(from_hex_to_binary("a1F").unwrap(), "101000011111");
}

#[test]
fn hex_to_binary_rejects_non_hex() {
    assert_eq!(from_hex_to_binary("12g4"), Err(EncodingError { position: 2 }));
    assert_eq!(from_hex_to_binary("é"), Err(EncodingError { position: 0 }));
}

#[test]
fn round_trip_on_bit_strings() {
    let samples = ["", "0000", "1111", "10100101", "0110100111110000", "1000000000000001"];
    for b in samples {
        let hex = from_binary_to_hex(b).unwrap();
        assert_eq!(hex.len(), b.len() / 4);
        assert_eq!(from_hex_to_binary(&hex).unwrap(), b);
    }
}

#[test]
fn round_trip_on_fine_length() {
    let mut b = String::new();
    for i in 0..1024 {
        b.push(if (i * 7 + i / 3) % 5 < 2 { '1' } else { '0' });
    }
    let hex = from_binary_to_hex(&b).unwrap();
    assert_eq!(hex.len(), 256);
    assert_eq!(from_hex_to_binary(&hex).unwrap(), b);
}
