use sha2::{Digest, Sha256};
use vanity_btc::base58::{base58_decode, base58_encode, Base58Error};

#[test]
fn encode_keeps_leading_zero_bytes() {
    assert_eq!(base58_encode(&[0x00, 0x00, 0x01]), "112");
}

#[test]
fn encode_empty_is_one_symbol() {
    assert_eq!(base58_encode(&[]), "1");
}

#[test]
fn encode_all_zero_bytes() {
    for len in 1..6usize {
        let data = vec![0u8; len];
        assert_eq!(base58_encode(&data), "1".repeat(len));
    }
}

#[test]
fn encode_known_text() {
    assert_eq!(base58_encode(b"Hello World!"), "2NEpo7TZRRrLZSi2U");
    assert_eq!(base58_encode(&[57]), "z");
    assert_eq!(base58_encode(&[58]), "21");
    assert_eq!(base58_encode(&[0xff]), "5Q");
}

#[test]
fn encode_zero_hash_address() {
    let mut payload = vec![0u8; 21];
    let first = Sha256::digest(&payload);
    let second = Sha256::digest(first);
    payload.extend_from_slice(&second[0..4]);
    assert_eq!(payload.len(), 25);
    assert_eq!(base58_encode(&payload), "1111111111111111111114oLvT2");
}

#[test]
fn decode_known_text() {
    assert_eq!(base58_decode("2NEpo7TZRRrLZSi2U"), Ok(b"Hello World!".to_vec()));
    assert_eq!(base58_decode("112"), Ok(vec![0, 0, 1]));
    assert_eq!(base58_decode("1"), Ok(vec![0]));
    assert_eq!(base58_decode(""), Ok(vec![]));
}

#[test]
fn decode_rejects_characters_outside_alphabet() {
    for bad in ["0", "O", "I", "l", "12+3", "abc ", "é"] {
        assert_eq!(base58_decode(bad), Err(Base58Error::InvalidCharacter));
    }
}

#[test]
fn round_trip_various_inputs() {
    let inputs: Vec<Vec<u8>> = vec![
        vec![0],
        vec![0, 0, 0, 0],
        vec![0, 0, 1],
        vec![1, 2, 3, 4, 5],
        vec![0xff; 40],
        (0u8..=255).collect(),
        vec![0, 0, 0xff, 0, 0x10],
    ];
    for b in inputs {
        let text = base58_encode(&b);
        assert_eq!(base58_decode(&text), Ok(b));
    }
}
