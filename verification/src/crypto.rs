//! The ciphers, key derivations and random numbers that the password stores
//! are built on. What each of them computes is not spelled out; it has a name,
//! and the few facts that the stores rely on.

use vstd::prelude::*;

use aes_gcm::aead::Aead;
use aes_gcm::aead::KeyInit;
use aes_gcm::aead::OsRng;
use aes_gcm::Aes256Gcm;
use aes_gcm::Nonce;
use argon2::Argon2;
use base64::engine::general_purpose::STANDARD;
use base64::Engine;
use crypto_box::PublicKey;
use crypto_box::SalsaBox;
use crypto_box::SecretKey;
use rand::RngCore;

use crate::encoding;

verus! {

/// `OsRng::fill_bytes`: fills a buffer with bytes from the operating system's
/// random number generator. Nothing is claimed of the bytes but how many they
/// are, at most a few.
#[verifier::external_body]
pub(crate) fn random_bytes(n: usize) -> (r: Vec<u8>)
    requires
        n <= 64,
    ensures
        r@.len() == n,
{
    let mut bytes = vec![0u8; n];
    OsRng.fill_bytes(&mut bytes);
    bytes
}

/// What Argon2id (version 19, 19456 KiB, 2 passes, 1 lane) derives from a
/// password and a salt, 32 bytes long.
pub uninterp spec fn argon2id(password: Seq<u8>, salt: Seq<u8>) -> Seq<u8>;

/// The longest password, and the longest salt, that Argon2 takes.
pub const ARGON2_MAX_LEN: u64 = 0xFFFF_FFFF;

/// `Argon2::default().hash_password_into` with a 32-byte output: the derived
/// key depends on the password and the salt alone. It refuses a password
/// longer than the limit, and a salt shorter than eight bytes or longer than
/// the limit; those are left out.
#[verifier::external_body]
pub(crate) fn argon2_hash(password: &[u8], salt: &[u8]) -> (key: [u8; 32])
    requires
        password@.len() <= ARGON2_MAX_LEN,
        8 <= salt@.len() <= ARGON2_MAX_LEN,
    ensures
        key@ == argon2id(password@, salt@),
{
    let mut key = [0u8; 32];
    Argon2::default()
        .hash_password_into(password, salt, &mut key)
        .expect("Argon2 key derivation failed");
    key
}

/// What AES-256-GCM makes of a plaintext under a key and a nonce: the
/// ciphertext followed by the tag.
pub uninterp spec fn aes_sealed(key: Seq<u8>, nonce: Seq<u8>, plaintext: Seq<u8>) -> Seq<u8>;

/// What AES-256-GCM reads in a ciphertext followed by its tag, under a key and
/// a nonce; `None` where the tag does not match.
pub uninterp spec fn aes_opened(key: Seq<u8>, nonce: Seq<u8>, data: Seq<u8>) -> Option<Seq<u8>>;

/// How many bytes the tag takes.
pub const AES_TAG_LEN: usize = 16;

/// The longest plaintext that AES-GCM takes.
pub const AES_MAX_LEN: u64 = 0x10_0000_0000;

/// `Aes256Gcm::encrypt` without associated data: the ciphertext depends on the
/// key, the nonce and the plaintext alone, is longer than the plaintext by the
/// tag, and opens to the plaintext under the same key and nonce. It refuses a
/// plaintext longer than the limit, which is left out.
#[verifier::external_body]
pub(crate) fn aes_seal(key: &[u8; 32], nonce: &[u8], plaintext: &[u8]) -> (r: Vec<u8>)
    requires
        nonce@.len() == 12,
        plaintext@.len() <= AES_MAX_LEN,
    ensures
        r@ == aes_sealed(key@, nonce@, plaintext@),
        r@.len() == plaintext@.len() + AES_TAG_LEN,
        aes_opened(key@, nonce@, r@) == Some(plaintext@),
{
    let cipher = Aes256Gcm::new(key.into());
    cipher
        .encrypt(Nonce::from_slice(nonce), plaintext)
        .expect("AES-256-GCM encryption failed")
}

/// `Aes256Gcm::decrypt` without associated data: what comes out, or that
/// nothing does, depends on the key, the nonce and the data alone.
#[verifier::external_body]
pub(crate) fn aes_open(key: &[u8; 32], nonce: &[u8], data: &[u8]) -> (r: Option<Vec<u8>>)
    requires
        nonce@.len() == 12,
    ensures
        match r {
            Some(plaintext) => aes_opened(key@, nonce@, data@) == Some(plaintext@),
            None => aes_opened(key@, nonce@, data@) is None,
        },
{
    let cipher = Aes256Gcm::new(key.into());
    cipher.decrypt(Nonce::from_slice(nonce), data).ok()
}

/// `SecretKey::generate` with the operating system's random number generator:
/// the bytes of a fresh secret key. Nothing is claimed of them.
#[verifier::external_body]
pub(crate) fn generate_secret_key() -> (r: [u8; 32])
{
    SecretKey::generate(&mut OsRng).to_bytes()
}

/// The public key that belongs to a secret key.
pub uninterp spec fn x25519_public(secret: Seq<u8>) -> Seq<u8>;

/// `SecretKey::public_key`: the public key depends on the secret key alone.
#[verifier::external_body]
pub(crate) fn public_key(secret: &[u8; 32]) -> (r: [u8; 32])
    ensures
        r@ == x25519_public(secret@),
{
    SecretKey::from(*secret).public_key().to_bytes()
}

/// What a box (Curve25519, XSalsa20, Poly1305) from the holder of a secret key
/// to the holder of a public key makes of a message: the tag followed by the
/// ciphertext.
pub uninterp spec fn box_sealed(
    public: Seq<u8>,
    secret: Seq<u8>,
    nonce: Seq<u8>,
    plaintext: Seq<u8>,
) -> Seq<u8>;

/// What the holder of a secret key reads in a box from the holder of a public
/// key; `None` where the tag does not match.
pub uninterp spec fn box_opened(
    public: Seq<u8>,
    secret: Seq<u8>,
    nonce: Seq<u8>,
    data: Seq<u8>,
) -> Option<Seq<u8>>;

/// How many bytes the nonce of a box has.
pub const BOX_NONCE_LEN: usize = 24;

/// How many bytes the tag of a box takes.
pub const BOX_TAG_LEN: usize = 16;

/// `SalsaBox::encrypt` without associated data: the box depends on the keys,
/// the nonce and the message alone, is longer than the message by the tag, and
/// opens to the message under the same keys and nonce, and, for the holder of
/// the secret key that the public key belongs to, under the keys seen from the
/// other side.
#[verifier::external_body]
pub(crate) fn box_seal(
    public: &[u8; 32],
    secret: &[u8; 32],
    nonce: &[u8; 24],
    plaintext: &[u8],
) -> (r: Vec<u8>)
    ensures
        r@ == box_sealed(public@, secret@, nonce@, plaintext@),
        r@.len() == plaintext@.len() + BOX_TAG_LEN,
        box_opened(public@, secret@, nonce@, r@) == Some(plaintext@),
        forall|other: Seq<u8>|
            other.len() == 32 && #[trigger] x25519_public(other) == public@ ==> box_opened(
                x25519_public(secret@),
                other,
                nonce@,
                r@,
            ) == Some(plaintext@),
{
    let salsa = SalsaBox::new(&PublicKey::from(*public), &SecretKey::from(*secret));
    salsa
        .encrypt(&crypto_box::Nonce::from(*nonce), plaintext)
        .expect("XSalsa20Poly1305 encryption failed")
}

/// `SalsaBox::decrypt` without associated data: what comes out, or that
/// nothing does, depends on the keys, the nonce and the data alone.
#[verifier::external_body]
pub(crate) fn box_open(
    public: &[u8; 32],
    secret: &[u8; 32],
    nonce: &[u8; 24],
    data: &[u8],
) -> (r: Option<Vec<u8>>)
    ensures
        match r {
            Some(plaintext) => box_opened(public@, secret@, nonce@, data@) == Some(plaintext@),
            None => box_opened(public@, secret@, nonce@, data@) is None,
        },
{
    let salsa = SalsaBox::new(&PublicKey::from(*public), &SecretKey::from(*secret));
    salsa.decrypt(&crypto_box::Nonce::from(*nonce), data).ok()
}

/// `STANDARD.encode` of the `base64` crate: the encoding with the standard
/// alphabet and padding.
#[verifier::external_body]
pub(crate) fn base64_text(data: &[u8]) -> (r: String)
    ensures
        r@ == encoding::encoded(data@),
{
    STANDARD.encode(data)
}

/// What the `base64` crate says is wrong with a text that is no encoding.
pub uninterp spec fn base64_problem(text: Seq<char>) -> Seq<char>;

/// `STANDARD.decode` of the `base64` crate: what the text is the encoding of.
/// It refuses every text that is not exactly an encoding: other symbols, white
/// space, missing or further padding, and bits left over that are not zero.
#[verifier::external_body]
pub(crate) fn base64_bytes(text: &str) -> (r: Result<Vec<u8>, String>)
    ensures
        match r {
            Ok(data) => text@ == encoding::encoded(data@),
            Err(problem) => problem@ == base64_problem(text@) && forall|data: Seq<u8>|
                #[trigger] encoding::encoded(data) != text@,
        },
{
    STANDARD.decode(text).map_err(|e| e.to_string())
}

} // verus!
