//! Keys, wallet import strings and P2PKH addresses.
use vstd::prelude::*;

use crate::base58::{
    base58_encode, be_value, decode_spec, digits_of, encode_spec, is_symbol, lemma_be_bounds,
    lemma_decode_encode, lemma_digits_len, lemma_encode_shape, pow_nat,
};
use crate::primitives::{
    compressed_point_of, hex_spec, is_valid_secret, public_point, random_secret, ripemd160,
    ripemd160_of, sha256, sha256_of, to_hex, uncompressed_point_of, valid_secret,
};

verus! {

/// Version byte of a mainnet P2PKH address.
pub const ADDRESS_VERSION: u8 = 0x00;

/// Version byte of a mainnet wallet import string.
pub const WIF_VERSION: u8 = 0x80;

/// Flag that marks a wallet import string as standing for a compressed key.
pub const WIF_COMPRESSED_FLAG: u8 = 0x01;

/// First four bytes of SHA-256(SHA-256(`payload`)).
pub open spec fn checksum_spec(payload: Seq<u8>) -> Seq<u8> {
    sha256_of(sha256_of(payload)).take(4)
}

/// `payload` followed by its checksum.
pub open spec fn checked_spec(payload: Seq<u8>) -> Seq<u8> {
    payload + checksum_spec(payload)
}

/// Version byte followed by RIPEMD-160(SHA-256(`pubkey`)).
pub open spec fn address_payload(pubkey: Seq<u8>) -> Seq<u8> {
    seq![ADDRESS_VERSION] + ripemd160_of(sha256_of(pubkey))
}

/// The P2PKH address of a compressed public key.
pub open spec fn address_spec(pubkey: Seq<u8>) -> Seq<char> {
    encode_spec(checked_spec(address_payload(pubkey)))
}

/// Version byte, the secret scalar and the compression flag.
pub open spec fn wif_payload(secret: Seq<u8>) -> Seq<u8> {
    seq![WIF_VERSION] + secret + seq![WIF_COMPRESSED_FLAG]
}

/// The wallet import string of a secret scalar.
pub open spec fn wif_spec(secret: Seq<u8>) -> Seq<char> {
    encode_spec(checked_spec(wif_payload(secret)))
}

/// Base58 of 38 bytes that start with `0x80` is 52 symbols long and starts
/// with `K` or `L`.
proof fn lemma_wif_text_shape(b: Seq<u8>)
    requires
        b.len() == 38,
        b[0] == WIF_VERSION,
    ensures
        encode_spec(b).len() == 52,
        encode_spec(b)[0] == 'K' || encode_spec(b)[0] == 'L',
{
    let v = be_value(b, 256);
    lemma_be_bounds(b);
    reveal_with_fuel(pow_nat, 53);
    let p37 = pow_nat(256, 37);
    let c51 = pow_nat(58, 51);
    assert(p37
        == 127314748520905380391777855525586135065716774604121015664758778084648831235208544136462336nat);
    assert(c51
        == 860652177161429109999036997686916149526104830704199286261148201570782998439917118073864192nat);
    assert(pow_nat(58, 52)
        == 49917826275362888379944145865841136672514080180843558603146595691105413909515192848284123136nat);
    assert(128 * p37 <= v < 129 * p37);
    lemma_digits_len(v, 51);
    let q = v / c51;
    vstd::arithmetic::div_mod::lemma_fundamental_div_mod(v as int, c51 as int);
    assert(18 <= q <= 19);
    let d = digits_of(v, 58);
    assert(encode_spec(b) =~= d.map_values(|x: u8| crate::base58::symbol(x)));
}

/// Appends `b` to `v`.
fn append_bytes(v: &mut Vec<u8>, b: &[u8])
    ensures
        final(v)@ == old(v)@ + b@,
{
    let ghost start = v@;
    let mut i: usize = 0;
    while i < b.len()
        invariant
            i <= b.len(),
            v@ == start + b@.take(i as int),
        decreases b.len() - i,
    {
        v.push(b[i]);
        assert(b@.take(i + 1) =~= b@.take(i as int).push(b[i as int]));
        i += 1;
    }
    assert(b@.take(b.len() as int) =~= b@);
}

/// Appends the double-SHA-256 checksum of `payload` to it.
fn append_checksum(payload: &mut Vec<u8>)
    ensures
        final(payload)@ == checked_spec(old(payload)@),
        final(payload)@.len() == old(payload)@.len() + 4,
{
    let first = sha256(payload.as_slice());
    let second = sha256(&first);
    append_bytes(payload, &second[0..4]);
}

/// Whether two byte strings are equal.
fn same_bytes(a: &[u8], b: &[u8]) -> (r: bool)
    ensures
        r == (a@ == b@),
{
    if a.len() != b.len() {
        return false;
    }
    let mut i: usize = 0;
    while i < a.len()
        invariant
            a.len() == b.len(),
            i <= a.len(),
            forall|k: int| 0 <= k < i ==> a[k] == b[k],
        decreases a.len() - i,
    {
        if a[i] != b[i] {
            return false;
        }
        i += 1;
    }
    assert(a@ =~= b@);
    true
}

/// A secret scalar of secp256k1, always in `[1, n - 1]`.
pub struct PrivateKey {
    secret: [u8; 32],
}

impl View for PrivateKey {
    type V = Seq<u8>;

    closed spec fn view(&self) -> Seq<u8> {
        self.secret@
    }
}

impl PrivateKey {
    #[verifier::type_invariant]
    closed spec fn inv(&self) -> bool {
        valid_secret(self.secret@)
    }

    /// Draws a fresh secret scalar from the system's secure random source.
    pub fn generate() -> (r: Self)
        ensures
            valid_secret(r@),
    {
        PrivateKey { secret: random_secret() }
    }

    /// The key whose scalar is `bytes`, read big-endian; `None` when that
    /// value is zero or not below the curve order.
    pub fn from_bytes(bytes: [u8; 32]) -> (r: Option<Self>)
        ensures
            r is Some <==> valid_secret(bytes@),
            r matches Some(k) ==> k@ == bytes@,
    {
        if is_valid_secret(&bytes) {
            Some(PrivateKey { secret: bytes })
        } else {
            None
        }
    }

    /// The 32 bytes of the scalar, big-endian.
    pub fn as_bytes(&self) -> (r: [u8; 32])
        ensures
            r@ == self@,
            valid_secret(r@),
    {
        proof {
            use_type_invariant(self);
        }
        self.secret
    }

    /// The scalar as lowercase hexadecimal.
    pub fn to_hex(&self) -> (r: String)
        ensures
            r@ == hex_spec(self@),
    {
        to_hex(&self.secret)
    }

    /// The wallet import string: `0x80`, the scalar, `0x01`, then the
    /// checksum, in base58. Decoding it gives those 38 bytes back.
    pub fn to_wif(&self) -> (r: String)
        ensures
            r@ == wif_spec(self@),
            r@.len() == 52,
            r@[0] == 'K' || r@[0] == 'L',
            decode_spec(r@) matches Some(d) && {
                &&& d.len() == 38
                &&& d[0] == WIF_VERSION
                &&& d.subrange(1, 33) == self@
                &&& d[33] == WIF_COMPRESSED_FLAG
                &&& d.subrange(34, 38) == checksum_spec(d.subrange(0, 34))
            },
    {
        let mut extended: Vec<u8> = Vec::new();
        extended.push(WIF_VERSION);
        append_bytes(&mut extended, &self.secret);
        extended.push(WIF_COMPRESSED_FLAG);
        assert(extended@ =~= wif_payload(self@));
        let ghost payload = extended@;
        append_checksum(&mut extended);
        proof {
            lemma_decode_encode(extended@);
            lemma_wif_text_shape(extended@);
            assert(extended@.subrange(0, 34) =~= payload);
            assert(extended@.subrange(1, 33) =~= self@);
            assert(extended@.subrange(34, 38) =~= checksum_spec(payload));
        }
        base58_encode(extended.as_slice())
    }

    /// The public key `scalar × G`.
    pub fn to_public_key(&self) -> (r: PublicKey)
        ensures
            r@ == compressed_point_of(self@),
            r.uncompressed_view() == uncompressed_point_of(self@),
    {
        proof {
            use_type_invariant(self);
        }
        let (compressed, uncompressed) = public_point(&self.secret);
        PublicKey { compressed, uncompressed }
    }
}

/// A secp256k1 point, held in both of its serialisations.
pub struct PublicKey {
    compressed: [u8; 33],
    uncompressed: [u8; 65],
}

impl View for PublicKey {
    type V = Seq<u8>;

    /// The compressed serialisation.
    closed spec fn view(&self) -> Seq<u8> {
        self.compressed@
    }
}

impl PublicKey {
    /// The uncompressed serialisation.
    pub closed spec fn uncompressed_view(&self) -> Seq<u8> {
        self.uncompressed@
    }

    /// The 33-byte compressed serialisation.
    pub fn as_bytes(&self) -> (r: [u8; 33])
        ensures
            r@ == self@,
    {
        self.compressed
    }

    /// The 65-byte uncompressed serialisation.
    pub fn as_bytes_uncompressed(&self) -> (r: [u8; 65])
        ensures
            r@ == self.uncompressed_view(),
    {
        self.uncompressed
    }

    /// The compressed serialisation as lowercase hexadecimal.
    pub fn to_hex(&self) -> (r: String)
        ensures
            r@ == hex_spec(self@),
    {
        to_hex(&self.compressed)
    }

    /// The uncompressed serialisation as lowercase hexadecimal.
    pub fn to_hex_uncompressed(&self) -> (r: String)
        ensures
            r@ == hex_spec(self.uncompressed_view()),
    {
        to_hex(&self.uncompressed)
    }

    /// The P2PKH address: base58 of `0x00`, RIPEMD-160(SHA-256(compressed
    /// key)) and the checksum. Decoding it gives 25 bytes whose last four
    /// are the checksum of the first 21.
    pub fn to_address(&self) -> (r: String)
        ensures
            r@ == address_spec(self@),
            decode_spec(r@) matches Some(d) && d.len() == 25 && d.subrange(21, 25)
                == checksum_spec(d.subrange(0, 21)),
    {
        let digest = sha256(&self.compressed);
        let hash = ripemd160(&digest);
        let mut extended: Vec<u8> = Vec::new();
        extended.push(ADDRESS_VERSION);
        append_bytes(&mut extended, &hash);
        assert(extended@ =~= address_payload(self@));
        let ghost payload = extended@;
        append_checksum(&mut extended);
        proof {
            lemma_decode_encode(extended@);
            assert(extended@.subrange(0, 21) =~= payload);
            assert(extended@.subrange(21, 25) =~= checksum_spec(payload));
        }
        base58_encode(extended.as_slice())
    }
}

/// An address together with the keys it was derived from.
pub struct BitcoinAddress {
    private_key: PrivateKey,
    public_key: PublicKey,
    address: String,
}

impl BitcoinAddress {
    /// The public key is the one of the private key and the address is the
    /// one of the public key.
    pub closed spec fn is_consistent(&self) -> bool {
        &&& valid_secret(self.private_key@)
        &&& self.public_key@ == compressed_point_of(self.private_key@)
        &&& self.public_key.uncompressed_view() == uncompressed_point_of(self.private_key@)
        &&& self.address@ == address_spec(self.public_key@)
    }

    /// The secret scalar.
    pub closed spec fn secret_view(&self) -> Seq<u8> {
        self.private_key@
    }

    /// The compressed public key.
    pub closed spec fn public_view(&self) -> Seq<u8> {
        self.public_key@
    }

    /// The address text.
    pub open spec fn address_view(&self) -> Seq<char> {
        self.address_string()@
    }

    /// The stored address string.
    pub closed spec fn address_string(&self) -> String {
        self.address
    }

    /// Draws a fresh key and derives its public key and address.
    pub fn generate() -> (r: Self)
        ensures
            r.is_consistent(),
    {
        let private_key = PrivateKey::generate();
        let public_key = private_key.to_public_key();
        let address = public_key.to_address();
        BitcoinAddress { private_key, public_key, address }
    }

    /// Derives the public key and address of a given key.
    pub fn from_private_key(private_key: PrivateKey) -> (r: Self)
        ensures
            r.is_consistent(),
            r.secret_view() == private_key@,
    {
        proof {
            use_type_invariant(&private_key);
        }
        let public_key = private_key.to_public_key();
        let address = public_key.to_address();
        BitcoinAddress { private_key, public_key, address }
    }

    /// The private key.
    pub fn private_key(&self) -> (r: &PrivateKey)
        ensures
            r@ == self.secret_view(),
    {
        &self.private_key
    }

    /// The public key.
    pub fn public_key(&self) -> (r: &PublicKey)
        ensures
            r@ == self.public_view(),
    {
        &self.public_key
    }

    /// The address text.
    pub fn address(&self) -> (r: &String)
        ensures
            r@ == self.address_view(),
            *r == self.address_string(),
    {
        &self.address
    }

    /// Derives the public key again from the private key and the address
    /// again from the public key, and tells whether both match the stored
    /// values.
    pub fn verify_cryptographic_validity(&self) -> (r: bool)
        ensures
            r == (self.public_view() == compressed_point_of(self.secret_view())
                && self.address_view() == address_spec(self.public_view())),
    {
        let expected_key = self.private_key.to_public_key();
        let expected_address = self.public_key.to_address();
        same_bytes(&expected_key.compressed, &self.public_key.compressed)
            && expected_address == self.address
    }
}

/// Every P2PKH address starts with `'1'` and holds base58 symbols only.
pub proof fn lemma_address_shape(pubkey: Seq<u8>)
    ensures
        address_spec(pubkey).len() > 0,
        address_spec(pubkey)[0] == '1',
        forall|i: int|
            0 <= i < address_spec(pubkey).len() ==> is_symbol(#[trigger] address_spec(pubkey)[i]),
{
    let b = checked_spec(address_payload(pubkey));
    assert(b[0] == ADDRESS_VERSION);
    lemma_encode_shape(b);
}

/// A freshly generated address passes the validity check.
pub proof fn lemma_generated_address_verifies(a: BitcoinAddress)
    requires
        a.is_consistent(),
    ensures
        a.public_view() == compressed_point_of(a.secret_view()),
        a.address_view() == address_spec(a.public_view()),
{
}

} // verus!
