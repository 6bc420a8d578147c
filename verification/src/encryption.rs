//! File encryption: XChaCha20-Poly1305 with keys derived by Argon2id.
use argon2::password_hash::SaltString;
use argon2::{Argon2, PasswordHasher};
use chacha20poly1305::aead::{Aead, KeyInit, OsRng};
use chacha20poly1305::{XChaCha20Poly1305, XNonce};
use rand::RngCore;
use vstd::prelude::*;
use vstd::string::{StringExecFns, StringSliceAdditionalSpecFns};

verus! {

/// Length of the authentication tag that encryption appends.
pub const TAG_LEN: usize = 16;

/// Encryption-related errors
#[derive(Debug, Clone, Copy, PartialEq, Eq, Structural)]
pub enum EncryptionError {
    KeyDerivationFailed,
    InvalidKey,
    EncryptionFailed,
    DecryptionFailed,
    /// The operating system's random source did not answer
    RandomSourceFailed,
}

/// Encryption key: 256 bits for XChaCha20-Poly1305
pub struct EncryptionKey {
    key: [u8; 32],
}

impl View for EncryptionKey {
    type V = Seq<u8>;

    closed spec fn view(&self) -> Seq<u8> {
        self.key@
    }
}

impl EncryptionKey {
    /// Create a new encryption key from raw bytes
    pub fn from_bytes(bytes: [u8; 32]) -> (r: Self)
        ensures
            r@ == bytes@,
    {
        Self { key: bytes }
    }

    /// How the key shows in debug output: its bytes are never shown.
    pub fn redacted(&self) -> (r: String)
        ensures
            r@ == "EncryptionKey([REDACTED])"@,
    {
        String::from_str("EncryptionKey([REDACTED])")
    }

    /// The key bytes.
    pub fn as_bytes(&self) -> (r: [u8; 32])
        ensures
            r@ == self@,
    {
        self.key
    }
}

/// What Argon2id with its default parameters makes of a password and a salt
/// (the hash output of the PHC string), or none when hashing fails.
pub uninterp spec fn argon2_output(password: Seq<u8>, salt: Seq<u8>) -> Option<Seq<u8>>;

/// What XChaCha20-Poly1305 makes of a key, a nonce and a plaintext: the
/// ciphertext followed by the tag.
pub uninterp spec fn xchacha_sealed(key: Seq<u8>, nonce: Seq<u8>, plaintext: Seq<u8>) -> Seq<u8>;

/// What XChaCha20-Poly1305 makes of a key, a nonce and a ciphertext with its
/// tag: the plaintext, or none when the tag does not authenticate it.
pub uninterp spec fn xchacha_opened(key: Seq<u8>, nonce: Seq<u8>, ciphertext: Seq<u8>) -> Option<
    Seq<u8>,
>;

/// Longest plaintext, exclusive, that the cipher accepts: 2^32 - 1 blocks of 64 bytes.
pub open spec fn cipher_limit() -> int {
    64int * 0xFFFF_FFFF
}

/// argon2's `PasswordHasher::hash_password` with `Argon2::default()`, the salt
/// given as its base64 `SaltString`; the result is the hash output's bytes.
/// Claims only that the result is the named output of these two arguments.
#[verifier::external_body]
fn argon2_hash(password: &str, salt: &[u8; 16]) -> (r: Option<Vec<u8>>)
    ensures
        match argon2_output(password.spec_bytes(), salt@) {
            Some(h) => r matches Some(v) && v@ == h,
            None => r is None,
        },
{
    let salt_string = SaltString::encode_b64(salt).ok()?;
    let hash = Argon2::default().hash_password(password.as_bytes(), &salt_string).ok()?;
    hash.hash.map(|h| h.as_bytes().to_vec())
}

/// chacha20poly1305's `Aead::encrypt` for `XChaCha20Poly1305`. The source refuses
/// only plaintexts of 2^32 - 1 blocks of 64 bytes or more; the result is the
/// ciphertext followed by a 16-byte tag, which decryption with the same key
/// and nonce authenticates and turns back into the plaintext.
#[verifier::external_body]
fn xchacha_encrypt(key: &[u8; 32], nonce: &[u8; 24], plaintext: &[u8]) -> (r: Option<Vec<u8>>)
    ensures
        r is Some <==> plaintext@.len() < cipher_limit(),
        r matches Some(c) ==> c@ == xchacha_sealed(key@, nonce@, plaintext@),
        r matches Some(c) ==> c@.len() == plaintext@.len() + TAG_LEN,
        r matches Some(c) ==> xchacha_opened(key@, nonce@, c@) == Some(plaintext@),
{
    let cipher = XChaCha20Poly1305::new(key.into());
    cipher.encrypt(XNonce::from_slice(nonce), plaintext).ok()
}

/// chacha20poly1305's `Aead::decrypt` for `XChaCha20Poly1305`.
#[verifier::external_body]
fn xchacha_decrypt(key: &[u8; 32], nonce: &[u8; 24], ciphertext: &[u8]) -> (r: Option<Vec<u8>>)
    ensures
        match xchacha_opened(key@, nonce@, ciphertext@) {
            Some(p) => r matches Some(v) && v@ == p,
            None => r is None,
        },
{
    let cipher = XChaCha20Poly1305::new(key.into());
    cipher.decrypt(XNonce::from_slice(nonce), ciphertext).ok()
}

/// Fills `dest` from the operating system's random source (rand_core's
/// `OsRng::try_fill_bytes`), telling whether that source answered. Nothing is
/// claimed of the bytes but their number, nor of when the source fails.
#[verifier::external_body]
fn os_random_fill(dest: &mut [u8]) -> (r: bool)
    ensures
        final(dest)@.len() == old(dest)@.len(),
{
    OsRng.try_fill_bytes(dest).is_ok()
}

/// Derive an encryption key from a password using Argon2id
///
/// The key is the first 32 bytes of the Argon2id output for the password and
/// the 16-byte salt (stored in the SuperBlock).
pub fn derive_key(password: &str, salt: &[u8; 16]) -> (r: Result<EncryptionKey, EncryptionError>)
    ensures
        match argon2_output(password.spec_bytes(), salt@) {
            Some(h) => if h.len() >= 32 {
                r matches Ok(k) && k@ == h.subrange(0, 32)
            } else {
                r == Err::<EncryptionKey, EncryptionError>(EncryptionError::KeyDerivationFailed)
            },
            None => r == Err::<EncryptionKey, EncryptionError>(
                EncryptionError::KeyDerivationFailed,
            ),
        },
{
    let hash_bytes = match argon2_hash(password, salt) {
        Some(h) => h,
        None => return Err(EncryptionError::KeyDerivationFailed),
    };
    if hash_bytes.len() < 32 {
        return Err(EncryptionError::KeyDerivationFailed);
    }
    let mut key = [0u8; 32];
    let mut k: usize = 0;
    while k < 32
        invariant
            k <= 32,
            hash_bytes@.len() >= 32,
            forall|j: int| 0 <= j < k ==> #[trigger] key@[j] == hash_bytes@[j],
        decreases 32 - k,
    {
        key[k] = hash_bytes[k];
        k = k + 1;
    }
    assert(key@ =~= hash_bytes@.subrange(0, 32));
    Ok(EncryptionKey::from_bytes(key))
}

/// Encrypt data using XChaCha20-Poly1305 AEAD cipher
///
/// Returns the ciphertext with the 16-byte authentication tag appended.
pub fn encrypt_data(plaintext: &[u8], key: &EncryptionKey, nonce: &[u8; 24]) -> (r: Result<
    Vec<u8>,
    EncryptionError,
>)
    ensures
        r is Ok <==> plaintext@.len() < cipher_limit(),
        r matches Ok(c) ==> c@ == xchacha_sealed(key@, nonce@, plaintext@),
        r matches Ok(c) ==> c@.len() == plaintext@.len() + TAG_LEN,
        r matches Ok(c) ==> xchacha_opened(key@, nonce@, c@) == Some(plaintext@),
        r is Err ==> r == Err::<Vec<u8>, EncryptionError>(EncryptionError::EncryptionFailed),
{
    match xchacha_encrypt(&key.key, nonce, plaintext) {
        Some(c) => Ok(c),
        None => Err(EncryptionError::EncryptionFailed),
    }
}

/// Decrypt data using XChaCha20-Poly1305 AEAD cipher
///
/// Returns the plaintext once the tag authenticates it.
pub fn decrypt_data(ciphertext: &[u8], key: &EncryptionKey, nonce: &[u8; 24]) -> (r: Result<
    Vec<u8>,
    EncryptionError,
>)
    ensures
        match xchacha_opened(key@, nonce@, ciphertext@) {
            Some(p) => r matches Ok(v) && v@ == p,
            None => r == Err::<Vec<u8>, EncryptionError>(EncryptionError::DecryptionFailed),
        },
{
    match xchacha_decrypt(&key.key, nonce, ciphertext) {
        Some(p) => Ok(p),
        None => Err(EncryptionError::DecryptionFailed),
    }
}

/// Generate a random 192-bit nonce; fails when the operating system's random
/// source does not answer.
pub fn generate_nonce() -> (r: Result<[u8; 24], EncryptionError>)
    ensures
        r is Err ==> r == Err::<[u8; 24], EncryptionError>(EncryptionError::RandomSourceFailed),
{
    let mut nonce = [0u8; 24];
    if os_random_fill(&mut nonce) {
        Ok(nonce)
    } else {
        Err(EncryptionError::RandomSourceFailed)
    }
}

/// Generate a random 128-bit salt; fails when the operating system's random
/// source does not answer.
pub fn generate_salt() -> (r: Result<[u8; 16], EncryptionError>)
    ensures
        r is Err ==> r == Err::<[u8; 16], EncryptionError>(EncryptionError::RandomSourceFailed),
{
    let mut salt = [0u8; 16];
    if os_random_fill(&mut salt) {
        Ok(salt)
    } else {
        Err(EncryptionError::RandomSourceFailed)
    }
}

} // verus!
