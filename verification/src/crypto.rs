//! The outside crates that the store calls: AES-256-GCM (`aes-gcm`),
//! Argon2 (`argon2`), Snappy (`snap`), xxh3 (`xxhash-rust`) and the operating
//! system's random numbers (`rand_core`'s `OsRng`, re-exported by `aes-gcm`).
use vstd::prelude::*;
use aes_gcm::aead::rand_core::RngCore;
use aes_gcm::aead::{Aead, AeadCore, OsRng};
use aes_gcm::{Aes256Gcm, Key, KeyInit};
use argon2::password_hash::SaltString;
use argon2::{Argon2, PasswordHasher};

verus! {

/// Longest plaintext that AES-256-GCM encrypts, in bytes.
pub const AES_MAX_PLAINTEXT: u64 = 0x10_0000_0000;

/// Bytes that AES-256-GCM appends to the ciphertext (the tag).
pub const AES_TAG_LEN: usize = 16;

/// Longest password that Argon2 takes, in bytes.
pub const ARGON2_MAX_PASSWORD: u64 = 0xFFFF_FFFF;

/// Largest input that Snappy handles, in bytes.
pub const SNAPPY_MAX_INPUT: u64 = 0xFFFF_FFFF;

#[verifier::external_type_specification]
#[verifier::external_body]
pub struct ExAeadError(aes_gcm::Error);

#[verifier::external_type_specification]
#[verifier::external_body]
pub struct ExArgon2Error(argon2::Error);

#[verifier::external_type_specification]
#[verifier::external_body]
pub struct ExPasswordHashError(argon2::password_hash::Error);

#[verifier::external_type_specification]
#[verifier::external_body]
pub struct ExSnapError(snap::Error);

/// The AES-256-GCM ciphertext (with its tag) of `plaintext` under `key` and
/// `nonce`, with no associated data.
pub uninterp spec fn aes256gcm_seal(key: Seq<u8>, nonce: Seq<u8>, plaintext: Seq<u8>) -> Seq<u8>;

/// The AES-256-GCM decryption of `ciphertext` (with its tag) under `key` and
/// `nonce`, with no associated data; `None` where authentication fails.
pub uninterp spec fn aes256gcm_open(key: Seq<u8>, nonce: Seq<u8>, ciphertext: Seq<u8>) -> Option<
    Seq<u8>,
>;

/// The 32-byte key that Argon2id with default parameters derives from
/// `password` and `salt`.
pub uninterp spec fn argon2_key(password: Seq<u8>, salt: Seq<u8>) -> Seq<u8>;

/// The raw Snappy compression of `input`.
pub uninterp spec fn snappy_compress(input: Seq<u8>) -> Seq<u8>;

/// The raw Snappy decompression of `input`; `None` where it is not valid.
pub uninterp spec fn snappy_decompress(input: Seq<u8>) -> Option<Seq<u8>>;

/// The xxh3 64-bit hash of `input` with the default secret and seed 0.
pub uninterp spec fn xxh3_64_hash(input: Seq<u8>) -> u64;

/// Room that Snappy needs for compressing `n` bytes; it refuses inputs where
/// this exceeds `SNAPPY_MAX_INPUT`.
pub open spec fn snappy_bound(n: int) -> int {
    32 + n + n / 6
}

/// `aes_gcm::Aes256Gcm::new` and `Aead::encrypt`.
///
/// Encrypting fails only for plaintexts longer than 2^36 bytes; otherwise the
/// ciphertext is the plaintext's length plus the 16-byte tag.
#[verifier::external_body]
pub(crate) fn aes_encrypt(key: &[u8; 32], nonce: &[u8; 12], plaintext: &[u8]) -> (r: Result<
    Vec<u8>,
    aes_gcm::Error,
>)
    ensures
        match r {
            Ok(c) => {
                &&& plaintext@.len() <= AES_MAX_PLAINTEXT
                &&& c@ == aes256gcm_seal(key@, nonce@, plaintext@)
                &&& c@.len() == plaintext@.len() + AES_TAG_LEN
            },
            Err(_) => plaintext@.len() > AES_MAX_PLAINTEXT,
        },
{
    Aes256Gcm::new(Key::<Aes256Gcm>::from_slice(key)).encrypt(&(*nonce).into(), plaintext)
}

/// `aes_gcm::Aes256Gcm::new` and `Aead::decrypt`.
///
/// A ciphertext that encrypting produced under the same key and nonce
/// decrypts to the plaintext it came from.
#[verifier::external_body]
pub(crate) fn aes_decrypt(key: &[u8; 32], nonce: &[u8; 12], ciphertext: &[u8]) -> (r: Result<
    Vec<u8>,
    aes_gcm::Error,
>)
    ensures
        match r {
            Ok(p) => aes256gcm_open(key@, nonce@, ciphertext@) == Some(p@),
            Err(_) => aes256gcm_open(key@, nonce@, ciphertext@) is None,
        },
        forall|p: Seq<u8>|
            p.len() <= AES_MAX_PLAINTEXT && ciphertext@ == #[trigger] aes256gcm_seal(key@, nonce@, p)
                ==> (r is Ok && r->Ok_0@ == p),
{
    Aes256Gcm::new(Key::<Aes256Gcm>::from_slice(key)).decrypt(&(*nonce).into(), ciphertext)
}

/// `argon2::Argon2::default()` and `hash_password_into` with a 32-byte output.
///
/// With the default parameters, a 16-byte salt and a 32-byte output it fails
/// only for passwords longer than `ARGON2_MAX_PASSWORD` bytes.
#[verifier::external_body]
pub(crate) fn argon2_derive(password: &[u8], salt: &[u8; 16]) -> (r: Result<[u8; 32], argon2::Error>)
    ensures
        match r {
            Ok(k) => password@.len() <= ARGON2_MAX_PASSWORD && k@ == argon2_key(password@, salt@),
            Err(_) => password@.len() > ARGON2_MAX_PASSWORD,
        },
{
    let mut out = [0u8; 32];
    match Argon2::default().hash_password_into(password, salt, &mut out) {
        Ok(()) => Ok(out),
        Err(e) => Err(e),
    }
}

/// The PHC string (algorithm, version, parameters, salt and hash) that
/// `PasswordHasher::hash_password` of `argon2::Argon2::default()` gives for
/// `password` under the salt whose raw bytes are `salt`.
pub uninterp spec fn argon2_phc_string(password: Seq<u8>, salt: Seq<u8>) -> Seq<char>;

/// `SaltString::encode_b64` of the 16 salt bytes, then
/// `PasswordHasher::hash_password` of `argon2::Argon2::default()`, rendered as
/// its PHC string.
///
/// Sixteen bytes always make a valid salt string, and with the default
/// parameters hashing fails only for passwords longer than
/// `ARGON2_MAX_PASSWORD` bytes; otherwise the string is the PHC string of the
/// password under that salt.
#[verifier::external_body]
pub(crate) fn argon2_phc(password: &[u8], salt: &[u8; 16]) -> (r: Result<
    String,
    argon2::password_hash::Error,
>)
    ensures
        match r {
            Ok(s) => password@.len() <= ARGON2_MAX_PASSWORD && s@ == argon2_phc_string(password@, salt@),
            Err(_) => password@.len() > ARGON2_MAX_PASSWORD,
        },
{
    let salt = match SaltString::encode_b64(salt) {
        Ok(s) => s,
        Err(e) => return Err(e),
    };
    match Argon2::default().hash_password(password, &salt) {
        Ok(h) => Ok(h.to_string()),
        Err(e) => Err(e),
    }
}

/// `RngCore::fill_bytes` of the operating system's random numbers, into an
/// array. Nothing is stated of the bytes: they are random.
#[verifier::external_body]
pub(crate) fn random_bytes<const N: usize>() -> [u8; N] {
    let mut a = [0u8; N];
    OsRng.fill_bytes(&mut a);
    a
}

/// `AeadCore::generate_nonce` of `Aes256Gcm` from the operating system's
/// random numbers. Nothing is stated of the nonce: it is random.
#[verifier::external_body]
pub(crate) fn random_nonce() -> [u8; 12] {
    Aes256Gcm::generate_nonce(OsRng).into()
}

/// `KeyInit::generate_key` of `Aes256Gcm` from the operating system's random
/// numbers. Nothing is stated of the key: it is random.
#[verifier::external_body]
pub(crate) fn random_key() -> [u8; 32] {
    Aes256Gcm::generate_key(OsRng).into()
}

/// `snap::raw::Encoder::new` and `compress_vec`.
///
/// It fails only where the input is too large for Snappy; the output is at
/// most `snappy_bound` of the input's length.
#[verifier::external_body]
pub(crate) fn snappy_compress_vec(input: &[u8]) -> (r: Result<Vec<u8>, snap::Error>)
    ensures
        match r {
            Ok(c) => {
                &&& snappy_bound(input@.len() as int) <= SNAPPY_MAX_INPUT
                &&& c@ == snappy_compress(input@)
                &&& c@.len() <= snappy_bound(input@.len() as int)
            },
            Err(_) => snappy_bound(input@.len() as int) > SNAPPY_MAX_INPUT,
        },
{
    snap::raw::Encoder::new().compress_vec(input)
}

/// `snap::raw::Decoder::new` and `decompress_vec`.
///
/// What compressing produced decompresses to the input it came from.
#[verifier::external_body]
pub(crate) fn snappy_decompress_vec(input: &[u8]) -> (r: Result<Vec<u8>, snap::Error>)
    ensures
        match r {
            Ok(d) => snappy_decompress(input@) == Some(d@),
            Err(_) => snappy_decompress(input@) is None,
        },
        forall|x: Seq<u8>|
            snappy_bound(x.len() as int) <= SNAPPY_MAX_INPUT && input@ == #[trigger] snappy_compress(x)
                ==> (r is Ok && r->Ok_0@ == x),
{
    snap::raw::Decoder::new().decompress_vec(input)
}

/// `xxhash_rust::xxh3::xxh3_64`.
#[verifier::external_body]
pub(crate) fn xxh3_64(input: &[u8]) -> (r: u64)
    ensures
        r == xxh3_64_hash(input@),
{
    xxhash_rust::xxh3::xxh3_64(input)
}

} // verus!
