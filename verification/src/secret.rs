//! The per-player secret: a random 128-bit value that is both the player's
//! shared key for AES-128-GCM and what the client proves it knows when it
//! authenticates over UDP.
use aes_gcm::aead::{Aead, KeyInit};
use aes_gcm::{Aes128Gcm, Nonce};
use rand::RngCore;
use vstd::prelude::*;

use crate::wire::{enc_uuid, put_uuid};

verus! {

/// The largest plaintext, in bytes, that AES-GCM accepts (2^36).
pub const AES_GCM_MAX_PLAINTEXT: u64 = 0x10_0000_0000;

/// The length of the random nonce that starts an encrypted payload.
pub const NONCE_LEN: usize = 12;

/// The length of the authentication tag that ends an AES-GCM ciphertext.
pub const TAG_LEN: usize = 16;

#[verifier::external_type_specification]
#[verifier::external_body]
pub struct ExAeadError(aes_gcm::Error);

/// The ciphertext (tag appended) that AES-128-GCM makes of `plaintext` under
/// `key` and `nonce`, with no associated data.
pub uninterp spec fn aes128_gcm_seal(key: Seq<u8>, nonce: Seq<u8>, plaintext: Seq<u8>) -> Seq<u8>;

/// What AES-128-GCM opens `ciphertext` (tag appended) to under `key` and
/// `nonce`, with no associated data: `None` where the tag does not verify.
pub uninterp spec fn aes128_gcm_open(key: Seq<u8>, nonce: Seq<u8>, ciphertext: Seq<u8>) -> Option<
    Seq<u8>,
>;

/// Wraps `Aead::encrypt` of `aes_gcm::Aes128Gcm`, the key set with
/// `KeyInit::new`. It fails exactly on a plaintext longer than 2^36 bytes;
/// otherwise the ciphertext is the plaintext's length plus the 16-byte tag,
/// and it opens again, under the same key and nonce, to the plaintext.
#[verifier::external_body]
fn aes_gcm_seal(key: &[u8; 16], nonce: &[u8; 12], plaintext: &[u8]) -> (r: Result<
    Vec<u8>,
    aes_gcm::Error,
>)
    ensures
        r is Ok <==> plaintext@.len() <= AES_GCM_MAX_PLAINTEXT,
        r matches Ok(c) ==> {
            &&& c@ == aes128_gcm_seal(key@, nonce@, plaintext@)
            &&& c@.len() == plaintext@.len() + TAG_LEN
            &&& aes128_gcm_open(key@, nonce@, c@) == Some(plaintext@)
        },
{
    let cipher = Aes128Gcm::new(&(*key).into());
    cipher.encrypt(Nonce::from_slice(nonce), plaintext)
}

/// Wraps `Aead::decrypt` of `aes_gcm::Aes128Gcm`, the key set with
/// `KeyInit::new`: the result is `aes128_gcm_open` of the arguments; a
/// plaintext is 16 bytes shorter than its ciphertext.
#[verifier::external_body]
fn aes_gcm_open(key: &[u8; 16], nonce: &[u8], ciphertext: &[u8]) -> (r: Result<
    Vec<u8>,
    aes_gcm::Error,
>)
    requires
        nonce@.len() == NONCE_LEN,
    ensures
        match r {
            Ok(p) => aes128_gcm_open(key@, nonce@, ciphertext@) == Some(p@),
            Err(_) => aes128_gcm_open(key@, nonce@, ciphertext@) is None,
        },
        r matches Ok(p) ==> ciphertext@.len() == p@.len() + TAG_LEN,
{
    let cipher = Aes128Gcm::new(&(*key).into());
    cipher.decrypt(Nonce::from_slice(nonce), ciphertext)
}

/// Wraps `RngCore::fill_bytes` on `rand::thread_rng()`: twelve random
/// bytes; nothing is promised of their values.
#[verifier::external_body]
fn random_nonce() -> (r: [u8; 12]) {
    let mut iv = [0u8; 12];
    rand::thread_rng().fill_bytes(&mut iv);
    iv
}

/// Wraps `uuid::Uuid::new_v4`, taken as its big-endian `u128`: random,
/// with the version-4 and RFC 4122 variant bits set.
#[verifier::external_body]
pub(crate) fn random_uuid() -> (r: u128)
    ensures
        (r >> 76u128) & 0xf == 4,
        (r >> 62u128) & 0x3 == 2,
{
    uuid::Uuid::new_v4().as_u128()
}

/// Why an encryption or decryption did not succeed.
#[derive(Debug, Clone, Copy, PartialEq, Eq, Structural)]
pub enum SecretError {
    /// The plaintext is longer than AES-GCM accepts.
    TooLong,
    /// The payload is shorter than a nonce.
    TooShort,
    /// The ciphertext does not authenticate under this key and nonce.
    Rejected,
}

/// A player's secret.
#[derive(Debug, Clone, Copy, PartialEq, Eq, Structural)]
pub struct Secret {
    pub uuid: u128,
}

/// The 16 bytes of a UUID, most significant first.
pub fn uuid_to_bytes(u: u128) -> (r: [u8; 16])
    ensures
        r@ == enc_uuid(u),
{
    let mut v: Vec<u8> = Vec::new();
    put_uuid(&mut v, u);
    assert(v@ =~= enc_uuid(u));
    proof {
        crate::wire::lemma_be_bytes_len(u as nat, 16);
    }
    let mut r = [0u8; 16];
    let mut i: usize = 0;
    while i < 16
        invariant
            i <= 16,
            v@ == enc_uuid(u),
            v@.len() == 16,
            r@.len() == 16,
            forall|j: int| 0 <= j < i ==> r@[j] == v@[j],
        decreases 16 - i,
    {
        r[i] = v[i];
        i = i + 1;
    }
    assert(r@ =~= v@);
    r
}

/// The encrypted form of `data` under `key`: a nonce followed by the
/// AES-GCM ciphertext of `data` under that nonce.
pub open spec fn sealed_under(key: Seq<u8>, data: Seq<u8>, payload: Seq<u8>) -> bool {
    &&& payload.len() == NONCE_LEN + data.len() + TAG_LEN
    &&& payload.skip(NONCE_LEN as int) == aes128_gcm_seal(
        key,
        payload.take(NONCE_LEN as int),
        data,
    )
    &&& aes128_gcm_open(key, payload.take(NONCE_LEN as int), payload.skip(NONCE_LEN as int))
        == Some(data)
}

/// What decrypting `payload` under `key` gives: the AES-GCM opening of the
/// bytes after the nonce, under the nonce; nothing when the payload is
/// shorter than a nonce.
pub open spec fn opened_under(key: Seq<u8>, payload: Seq<u8>) -> Option<Seq<u8>> {
    if payload.len() < NONCE_LEN {
        None
    } else {
        aes128_gcm_open(key, payload.take(NONCE_LEN as int), payload.skip(NONCE_LEN as int))
    }
}

impl Secret {
    /// The AES key: the secret's 16 bytes.
    pub open spec fn key(self) -> Seq<u8> {
        enc_uuid(self.uuid)
    }

    /// A fresh random secret: a version-4 UUID, whose version and variant
    /// bits are fixed and whose other bits are random.
    pub fn generate() -> (r: Secret)
        ensures
            (r.uuid >> 76u128) & 0xf == 4,
            (r.uuid >> 62u128) & 0x3 == 2,
    {
        Secret { uuid: random_uuid() }
    }

    pub fn to_bytes(&self) -> (r: [u8; 16])
        ensures
            r@ == self.key(),
    {
        uuid_to_bytes(self.uuid)
    }

    pub fn from_bytes(bytes: [u8; 16]) -> (r: Secret)
        ensures
            r.key() == bytes@,
    {
        let u = crate::wire::get_be(bytes.as_slice(), 0, 16);
        proof {
            let b = bytes@;
            assert(b.subrange(0, 16) =~= b);
            crate::wire::lemma_be_value_bound(b);
            crate::wire::lemma_pow256_values();
            lemma_be_bytes_of_value(b);
        }
        Secret { uuid: u }
    }

    /// Encrypts `data` under a fresh random nonce; the payload is the nonce
    /// followed by the ciphertext.
    pub fn encrypt(&self, data: &[u8]) -> (r: Result<Vec<u8>, SecretError>)
        ensures
            r is Ok <==> data@.len() <= AES_GCM_MAX_PLAINTEXT,
            r is Err ==> r == Err::<Vec<u8>, SecretError>(SecretError::TooLong),
            r matches Ok(p) ==> sealed_under(self.key(), data@, p@),
    {
        let key = self.to_bytes();
        let iv = random_nonce();
        match aes_gcm_seal(&key, &iv, data) {
            Ok(enc) => {
                let mut payload: Vec<u8> = Vec::new();
                payload.extend_from_slice(iv.as_slice());
                payload.extend_from_slice(enc.as_slice());
                proof {
                    assert(payload@ =~= iv@ + enc@);
                    assert(payload@.take(NONCE_LEN as int) =~= iv@);
                    assert(payload@.skip(NONCE_LEN as int) =~= enc@);
                }
                Ok(payload)
            },
            Err(_) => Err(SecretError::TooLong),
        }
    }

    /// Decrypts a payload made by `encrypt`: the first twelve bytes are the
    /// nonce, the rest the ciphertext.
    pub fn decrypt(&self, payload: &[u8]) -> (r: Result<Vec<u8>, SecretError>)
        ensures
            payload@.len() < NONCE_LEN ==> r == Err::<Vec<u8>, SecretError>(
                SecretError::TooShort,
            ),
            payload@.len() >= NONCE_LEN ==> match opened_under(self.key(), payload@) {
                Some(d) => r is Ok && r.unwrap()@ == d,
                None => r == Err::<Vec<u8>, SecretError>(SecretError::Rejected),
            },
            r matches Ok(p) ==> payload@.len() == NONCE_LEN + p@.len() + TAG_LEN,
    {
        if payload.len() < NONCE_LEN {
            return Err(SecretError::TooShort);
        }
        let key = self.to_bytes();
        let nonce = vstd::slice::slice_subrange(payload, 0, NONCE_LEN);
        let data = vstd::slice::slice_subrange(payload, NONCE_LEN, payload.len());
        proof {
            assert(nonce@ =~= payload@.take(NONCE_LEN as int));
            assert(data@ =~= payload@.skip(NONCE_LEN as int));
        }
        match aes_gcm_open(&key, nonce, data) {
            Ok(d) => Ok(d),
            Err(_) => Err(SecretError::Rejected),
        }
    }
}

/// The bytes of a 16-byte sequence re-encode to themselves.
proof fn lemma_be_bytes_of_value(b: Seq<u8>)
    requires
        b.len() == 16,
    ensures
        enc_uuid(crate::wire::be_value(b) as u128) == b,
{
    crate::wire::lemma_be_value_bound(b);
    crate::wire::lemma_pow256_values();
    crate::wire::lemma_be_bytes_inverse(b);
}

/// Decrypting what `encrypt` made under the same secret gives back the data.
pub proof fn lemma_decrypt_encrypt(key: Seq<u8>, data: Seq<u8>, payload: Seq<u8>)
    requires
        sealed_under(key, data, payload),
    ensures
        opened_under(key, payload) == Some(data),
{
}

} // verus!
