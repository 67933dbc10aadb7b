use sha2::{Digest, Sha256};
use vanity_btc::address::{BitcoinAddress, PrivateKey};
use vanity_btc::base58::base58_decode;

const ALPHABET: &str = "123456789ABCDEFGHJKLMNPQRSTUVWXYZabcdefghijkmnopqrstuvwxyz";

fn key_one() -> PrivateKey {
    let mut bytes = [0u8; 32];
    bytes[31] = 1;
    PrivateKey::from_bytes(bytes).expect("one is a valid scalar")
}

#[test]
fn from_bytes_rejects_zero_and_order() {
    assert!(PrivateKey::from_bytes([0u8; 32]).is_none());
    let order: [u8; 32] = [
        0xff, 0xff, 0xff, 0xff, 0xff, 0xff, 0xff, 0xff, 0xff, 0xff, 0xff, 0xff, 0xff, 0xff, 0xff,
        0xfe, 0xba, 0xae, 0xdc, 0xe6, 0xaf, 0x48, 0xa0, 0x3b, 0xbf, 0xd2, 0x5e, 0x8c, 0xd0, 0x36,
        0x41, 0x41,
    ];
    assert!(PrivateKey::from_bytes(order).is_none());
    let mut below = order;
    below[31] = 0x40;
    assert!(PrivateKey::from_bytes(below).is_some());
}

#[test]
fn key_one_hex_and_wif() {
    let k = key_one();
    assert_eq!(
        k.to_hex(),
        "0000000000000000000000000000000000000000000000000000000000000001"
    );
    assert_eq!(k.to_wif(), "KwDiBf89QgGbjEhKnhXJuH7LrciVrZi3qYjgd9M7rFU73sVHnoWn");
    let bytes = base58_decode(&k.to_wif()).expect("valid base58");
    assert_eq!(bytes.len(), 38);
    assert_eq!(&bytes[1..33], &k.as_bytes()[..]);
    assert_eq!(k.as_bytes()[31], 1);
}

#[test]
fn key_one_public_key_and_address() {
    let pk = key_one().to_public_key();
    assert_eq!(
        pk.to_hex(),
        "0279be667ef9dcbbac55a06295ce870b07029bfcdb2dce28d959f2815b16f81798"
    );
    assert_eq!(
        pk.to_hex_uncompressed(),
        "0479be667ef9dcbbac55a06295ce870b07029bfcdb2dce28d959f2815b16f81798\
         483ada7726a3c4655da4fbfc0e1108a8fd17b448a68554199c47d08ffb10d4b8"
    );
    assert_eq!(pk.as_bytes().len(), 33);
    assert_eq!(pk.as_bytes_uncompressed().len(), 65);
    assert_eq!(pk.to_address(), "1BgGZ9tcN4rm9KBzDn7KprQz87SZ26SAMH");
}

#[test]
fn public_key_derivation_is_deterministic() {
    let k = PrivateKey::generate();
    let a = k.to_public_key();
    let b = k.to_public_key();
    assert_eq!(a.as_bytes(), b.as_bytes());
    assert_eq!(a.as_bytes_uncompressed(), b.as_bytes_uncompressed());
    assert_eq!(a.to_address(), b.to_address());
}

#[test]
fn generated_address_shape() {
    for _ in 0..20 {
        let a = BitcoinAddress::generate();
        let text = a.address();
        assert!(text.starts_with('1'));
        assert!(text.chars().all(|c| ALPHABET.contains(c)));
    }
}

#[test]
fn address_checksum_matches_payload() {
    for _ in 0..20 {
        let a = BitcoinAddress::generate();
        let bytes = base58_decode(a.address()).expect("an address is valid base58");
        assert_eq!(bytes.len(), 25);
        let (payload, check) = bytes.split_at(21);
        let digest = Sha256::digest(Sha256::digest(payload));
        assert_eq!(check, &digest[0..4]);
        assert_eq!(payload[0], 0x00);
    }
}

#[test]
fn wif_payload_layout() {
    let k = PrivateKey::generate();
    let wif = k.to_wif();
    assert_eq!(wif.chars().count(), 52);
    assert!(wif.starts_with('K') || wif.starts_with('L'));
    let bytes = base58_decode(&k.to_wif()).expect("a wallet import string is valid base58");
    assert_eq!(bytes.len(), 38);
    assert_eq!(bytes[0], 0x80);
    assert_eq!(&bytes[1..33], &k.as_bytes()[..]);
    assert_eq!(bytes[33], 0x01);
    let digest = Sha256::digest(Sha256::digest(&bytes[0..34]));
    assert_eq!(&bytes[34..38], &digest[0..4]);
}

#[test]
fn generated_address_verifies() {
    for _ in 0..10 {
        let a = BitcoinAddress::generate();
        assert!(a.verify_cryptographic_validity());
    }
}

#[test]
fn address_from_given_key_verifies() {
    let a = BitcoinAddress::from_private_key(key_one());
    assert_eq!(a.address(), "1BgGZ9tcN4rm9KBzDn7KprQz87SZ26SAMH");
    assert_eq!(a.public_key().to_address(), *a.address());
    assert_eq!(a.private_key().as_bytes()[31], 1);
    assert!(a.verify_cryptographic_validity());
}
