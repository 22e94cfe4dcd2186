//! Key derivation, authenticated encryption and content hashing.
//!
//! A password is stretched by Argon2id into a key-encryption key.  The data
//! key of a repository is random; every object at rest is sealed under it by
//! ChaCha20-Poly1305 with a fresh nonce of twelve bytes, which is stored in
//! front of the ciphertext.

use crate::error::Error;
use crate::types::{ChunkID, KdfParams, blake3_digest};
use vstd::prelude::*;
use vstd::slice::slice_subrange;
use vstd::string::StringExecFns;
use vstd::string::StringSliceAdditionalSpecFns;

verus! {

/// Length of a key, in bytes.
pub const KEY_LEN: usize = 32;

/// Length of a nonce, in bytes.
pub const NONCE_LEN: usize = 12;

/// Length of the authentication tag that closes a ciphertext, in bytes.
pub const TAG_LEN: usize = 16;

/// The greatest number of blocks of 64 bytes in a message that the cipher
/// takes.
pub const MAX_BLOCKS: u32 = 0xffff_fffe;

/// The largest number of lanes that is handed to the password hash.
pub const MAX_LANES: u32 = 0x1fff_ffff;

/// The shortest salt that is handed to the password hash, in bytes.
pub const MIN_SALT_LEN: usize = 3;

/// The 32-byte key that Argon2id (version 0x13) derives from a password and
/// a salt under the given costs, or `None` where the `argon2` crate rejects
/// the costs or the salt.
pub uninterp spec fn argon2id_key(
    password: Seq<u8>,
    salt: Seq<u8>,
    memory: u32,
    iterations: u32,
    parallelism: u32,
) -> Option<Seq<u8>>;

/// The ciphertext and tag that ChaCha20-Poly1305 makes of `plaintext` under
/// `key` and `nonce`, with no associated data.
pub uninterp spec fn chacha20poly1305_sealed(key: Seq<u8>, nonce: Seq<u8>, plaintext: Seq<u8>) -> Seq<
    u8,
>;

/// The plaintext that ChaCha20-Poly1305 recovers from `ciphertext` under
/// `key` and `nonce`, or `None` where the tag does not verify.
pub uninterp spec fn chacha20poly1305_opened(key: Seq<u8>, nonce: Seq<u8>, ciphertext: Seq<u8>) -> Option<
    Seq<u8>,
>;

/// What a derivation handed back, the key as a sequence.
pub open spec fn derived_view(outcome: core::result::Result<Vec<u8>, String>) -> Option<Seq<u8>> {
    match outcome {
        Ok(key) => Some(key@),
        Err(_) => None,
    }
}

/// What a cipher call handed back, the bytes as a sequence.
pub open spec fn bytes_view(outcome: Option<Vec<u8>>) -> Option<Seq<u8>> {
    match outcome {
        Some(bytes) => Some(bytes@),
        None => None,
    }
}

/// The number of blocks of 64 bytes that a message of `len` bytes takes.
pub open spec fn blocks_of(len: nat) -> nat {
    (len + 63) / 64
}

/// Whether the cipher accepts a message of `len` bytes.  The cipher counts
/// the blocks of its key stream in 32 bits and spends the first one on the
/// key of the tag, so that a message may take `MAX_BLOCKS` blocks; and the
/// sealed message has to fit in memory.
pub open spec fn sealable_len(len: nat) -> bool {
    blocks_of(len) <= MAX_BLOCKS && len + NONCE_LEN + TAG_LEN <= isize::MAX
}

/// Whether a sealed message of `len` bytes, nonce and tag included, is one
/// that the cipher is asked to open: its encrypted part takes no more blocks
/// than the cipher's counter leaves.
pub open spec fn openable_len(len: nat) -> bool {
    len >= NONCE_LEN + TAG_LEN ==> blocks_of((len - NONCE_LEN - TAG_LEN) as nat) <= MAX_BLOCKS
}

/// Calls `argon2::Argon2::hash_password` for Argon2id, version 0x13, with
/// the costs given and the default output length, after turning the costs
/// into `argon2::Params` and the salt into a `SaltString`.  The result is the
/// hash's raw output, 32 bytes; an error of any of the three steps comes back
/// as its message.  The salt must have three bytes or more, which a
/// `SaltString` needs to be read back, and eight times the lanes must fit in
/// 32 bits.
#[verifier::external_body]
fn argon2id_hash(password: &[u8], salt: &[u8], memory: u32, iterations: u32, parallelism: u32) -> (outcome:
    core::result::Result<Vec<u8>, String>)
    requires
        salt.len() >= MIN_SALT_LEN,
        parallelism <= MAX_LANES,
    ensures
        derived_view(outcome) == argon2id_key(password@, salt@, memory, iterations, parallelism),
        outcome matches Ok(key) ==> key.len() == KEY_LEN,
{
    let params = argon2::Params::new(memory, iterations, parallelism, None).map_err(|e| e.to_string())?;
    let hasher = argon2::Argon2::new(argon2::Algorithm::Argon2id, argon2::Version::V0x13, params);
    let salt = argon2::password_hash::SaltString::encode_b64(salt).map_err(|e| e.to_string())?;
    let hash = argon2::PasswordHasher::hash_password(&hasher, password, &salt).map_err(|e| e.to_string())?;
    hash.hash.map(|h| h.as_bytes().to_vec()).ok_or_else(|| String::from("no hash output"))
}

/// Fills a new buffer of `len` bytes from the operating system's generator,
/// by `OsRng.fill_bytes`.  Only the length is known of what comes back.
#[verifier::external_body]
fn os_random_bytes(len: usize) -> (bytes: Vec<u8>)
    ensures
        bytes.len() == len,
{
    let mut bytes = vec![0u8; len];
    argon2::password_hash::rand_core::RngCore::fill_bytes(
        &mut argon2::password_hash::rand_core::OsRng,
        &mut bytes,
    );
    bytes
}

/// Calls `ChaCha20Poly1305::generate_nonce` with the operating system's
/// generator.  A nonce has twelve bytes; which ones is left open.
#[verifier::external_body]
fn fresh_nonce() -> (nonce: Vec<u8>)
    ensures
        nonce.len() == NONCE_LEN,
{
    <chacha20poly1305::ChaCha20Poly1305 as chacha20poly1305::aead::AeadCore>::generate_nonce(
        &mut chacha20poly1305::aead::OsRng,
    ).to_vec()
}

/// Calls `ChaCha20Poly1305::encrypt` with an empty associated data.  The
/// key stream has `u32::MAX` blocks of 64 bytes after the one that gives the
/// key of the tag, and the cipher panics where a message runs into the last
/// of them, so the message may take `MAX_BLOCKS` blocks at most.  Every such
/// message is sealed; what comes back is the encrypted message followed by
/// the tag of 16 bytes, and `decrypt` gives the message back from it.
#[verifier::external_body]
fn aead_seal(key: &[u8], nonce: &[u8], plaintext: &[u8]) -> (sealed: Option<Vec<u8>>)
    requires
        key.len() == KEY_LEN,
        nonce.len() == NONCE_LEN,
        plaintext.len() + TAG_LEN <= isize::MAX,
        blocks_of(plaintext@.len()) <= MAX_BLOCKS,
    ensures
        sealed.is_some(),
        sealed matches Some(bytes) ==> {
            &&& bytes@ == chacha20poly1305_sealed(key@, nonce@, plaintext@)
            &&& bytes.len() == plaintext.len() + TAG_LEN
            &&& chacha20poly1305_opened(key@, nonce@, bytes@) == Some(plaintext@)
        },
{
    let cipher = <chacha20poly1305::ChaCha20Poly1305 as chacha20poly1305::KeyInit>::new(
        chacha20poly1305::Key::from_slice(key),
    );
    chacha20poly1305::aead::Aead::encrypt(&cipher, chacha20poly1305::Nonce::from_slice(nonce), plaintext).ok()
}

/// Calls `ChaCha20Poly1305::decrypt` with an empty associated data.  The
/// cipher recomputes the tag over the encrypted message and accepts only
/// where it equals the last 16 bytes; as the message is encrypted by a key
/// stream, what is accepted is exactly what `encrypt` makes of the plaintext
/// that comes back.  The encrypted message, which is what comes before the
/// tag, may take `MAX_BLOCKS` blocks at most: beyond that the cipher panics
/// where the tag verifies.
#[verifier::external_body]
fn aead_open(key: &[u8], nonce: &[u8], ciphertext: &[u8]) -> (opened: Option<Vec<u8>>)
    requires
        key.len() == KEY_LEN,
        nonce.len() == NONCE_LEN,
        ciphertext@.len() >= TAG_LEN ==> blocks_of((ciphertext@.len() - TAG_LEN) as nat)
            <= MAX_BLOCKS,
    ensures
        bytes_view(opened) == chacha20poly1305_opened(key@, nonce@, ciphertext@),
        opened matches Some(bytes) ==> {
            &&& ciphertext@ == chacha20poly1305_sealed(key@, nonce@, bytes@)
            &&& ciphertext.len() == bytes.len() + TAG_LEN
        },
{
    let cipher = <chacha20poly1305::ChaCha20Poly1305 as chacha20poly1305::KeyInit>::new(
        chacha20poly1305::Key::from_slice(key),
    );
    chacha20poly1305::aead::Aead::decrypt(&cipher, chacha20poly1305::Nonce::from_slice(nonce), ciphertext).ok()
}

/// A key: the key-encryption key derived from a password, or the random data
/// key of a repository.
pub struct MasterKey {
    key: Vec<u8>,
}

impl View for MasterKey {
    type V = Seq<u8>;

    closed spec fn view(&self) -> Seq<u8> {
        self.key@
    }
}

/// The key that a password gives under `params`, or `None` where none is
/// derived: with a salt under three bytes, with more lanes than `MAX_LANES`,
/// and where Argon2id refuses.
pub open spec fn derived_key(password: Seq<u8>, salt: Seq<u8>, params: KdfParamsModel) -> Option<Seq<u8>> {
    if salt.len() < MIN_SALT_LEN || params.parallelism > MAX_LANES {
        None
    } else {
        argon2id_key(password, salt, params.memory, params.iterations, params.parallelism)
    }
}

/// The costs of a derivation.
pub ghost struct KdfParamsModel {
    pub memory: u32,
    pub iterations: u32,
    pub parallelism: u32,
}

/// The costs that `params` names.
pub open spec fn costs_of(params: &KdfParams) -> KdfParamsModel {
    KdfParamsModel {
        memory: params.memory,
        iterations: params.iterations,
        parallelism: params.parallelism,
    }
}

impl MasterKey {
    /// Turns the outcome of a derivation into a key, or its message into an
    /// encryption error.
    pub fn from_derivation(outcome: core::result::Result<Vec<u8>, String>) -> (r: core::result::Result<
        MasterKey,
        Error,
    >)
        ensures
            match outcome {
                Ok(key) => r matches Ok(k) && k@ == key@,
                Err(message) => r matches Err(Error::Encryption(m)) && m == message,
            },
    {
        match outcome {
            Ok(key) => Ok(MasterKey { key }),
            Err(message) => Err(Error::Encryption(message)),
        }
    }

    /// Derives the key-encryption key from a password by Argon2id with the
    /// costs of `params` and the salt given.  The salt of `params` itself is
    /// not read.
    pub fn derive_from_password(password: &str, salt: &[u8], params: &KdfParams) -> (r: core::result::Result<
        MasterKey,
        Error,
    >)
        ensures
            match derived_key(password.spec_bytes(), salt@, costs_of(params)) {
                Some(key) => r matches Ok(k) && k@ == key && key.len() == KEY_LEN,
                None => r matches Err(Error::Encryption(_)),
            },
    {
        if salt.len() < MIN_SALT_LEN {
            return Err(Error::Encryption(String::from_str("salt too short")));
        }
        if params.parallelism > MAX_LANES {
            return Err(Error::Encryption(String::from_str("too many lanes")));
        }
        let outcome = argon2id_hash(
            password.as_bytes(),
            salt,
            params.memory,
            params.iterations,
            params.parallelism,
        );
        MasterKey::from_derivation(outcome)
    }

    /// A fresh random key of 32 bytes.
    pub fn generate() -> (key: Self)
        ensures
            key@.len() == KEY_LEN,
    {
        MasterKey { key: os_random_bytes(KEY_LEN) }
    }

    pub fn as_bytes(&self) -> (bytes: &[u8])
        ensures
            bytes@ == self@,
    {
        self.key.as_slice()
    }
}

/// What `ciphertext` opens to under `key`: nothing where it is shorter than
/// a nonce or too long for the cipher, else what the cipher recovers from the
/// bytes after the nonce.
pub open spec fn decrypted(key: Seq<u8>, ciphertext: Seq<u8>) -> Option<Seq<u8>> {
    if ciphertext.len() < NONCE_LEN || !openable_len(ciphertext.len()) {
        None
    } else {
        chacha20poly1305_opened(
            key,
            ciphertext.subrange(0, NONCE_LEN as int),
            ciphertext.subrange(NONCE_LEN as int, ciphertext.len() as int),
        )
    }
}

/// Whether `ciphertext` is a sealing of `plaintext` under `key`: a nonce,
/// then what the cipher makes of the plaintext under that nonce, which the
/// cipher opens again.
pub open spec fn is_sealing(key: Seq<u8>, plaintext: Seq<u8>, ciphertext: Seq<u8>) -> bool {
    &&& ciphertext.len() == plaintext.len() + NONCE_LEN + TAG_LEN
    &&& ciphertext.subrange(NONCE_LEN as int, ciphertext.len() as int) == chacha20poly1305_sealed(
        key,
        ciphertext.subrange(0, NONCE_LEN as int),
        plaintext,
    )
    &&& decrypted(key, ciphertext) == Some(plaintext)
}

/// Seals and opens messages under one key of 32 bytes.
pub struct Encryptor {
    key: Vec<u8>,
}

/// Tells whether a message of `len` bytes takes no more blocks than the
/// cipher's counter leaves.
fn fits_counter(len: usize) -> (r: bool)
    ensures
        r == (blocks_of(len as nat) <= MAX_BLOCKS),
{
    let blocks = len / 64 + if len % 64 == 0 {
        0
    } else {
        1
    };
    blocks <= MAX_BLOCKS as usize
}

impl Encryptor {
    #[verifier::type_invariant]
    spec fn well_formed(&self) -> bool {
        self.key.len() == KEY_LEN
    }

    /// The key that messages are sealed under.
    pub closed spec fn spec_key(&self) -> Seq<u8> {
        self.key@
    }

    /// An encryptor for `key`, which has to have 32 bytes.
    pub fn new(key: &[u8]) -> (r: core::result::Result<Self, Error>)
        ensures
            key.len() == KEY_LEN ==> (r matches Ok(e) && e.spec_key() == key@),
            key.len() != KEY_LEN ==> (r matches Err(Error::Encryption(m)) && m@
                == "Key must be 32 bytes"@),
    {
        if key.len() != KEY_LEN {
            return Err(Error::Encryption(String::from_str("Key must be 32 bytes")));
        }
        let mut copy: Vec<u8> = Vec::new();
        copy.extend_from_slice(key);
        assert(copy@ =~= key@);
        Ok(Encryptor { key: copy })
    }

    /// The key that messages are sealed under.
    pub fn key(&self) -> (key: &[u8])
        ensures
            key@ == self.spec_key(),
            key@.len() == KEY_LEN,
    {
        proof {
            use_type_invariant(self);
        }
        self.key.as_slice()
    }

    /// Seals `plaintext` under a fresh nonce.  The result is the nonce
    /// followed by the ciphertext and its tag, 28 bytes longer than the
    /// plaintext.  A message too long for the cipher is refused before the
    /// cipher is called.
    pub fn encrypt(&self, plaintext: &[u8]) -> (r: core::result::Result<Vec<u8>, Error>)
        ensures
            sealable_len(plaintext@.len()) ==> (r matches Ok(sealed) && is_sealing(
                self.spec_key(),
                plaintext@,
                sealed@,
            )),
            !sealable_len(plaintext@.len()) ==> r matches Err(Error::Encryption(_)),
    {
        proof {
            use_type_invariant(self);
        }
        if plaintext.len() > isize::MAX as usize - NONCE_LEN - TAG_LEN || !fits_counter(
            plaintext.len(),
        ) {
            return Err(Error::Encryption(String::from_str("message too long")));
        }
        let nonce = fresh_nonce();
        match aead_seal(self.key.as_slice(), nonce.as_slice(), plaintext) {
            None => Err(Error::Encryption(String::from_str("aead::Error"))),
            Some(body) => {
                let mut sealed = nonce;
                let ghost nonce_bytes = sealed@;
                sealed.extend_from_slice(body.as_slice());
                assert(sealed@.subrange(0, NONCE_LEN as int) =~= nonce_bytes);
                assert(sealed@.subrange(NONCE_LEN as int, sealed@.len() as int) =~= body@);
                Ok(sealed)
            },
        }
    }

    /// Opens a sealed message.  It is rejected where it is shorter than a
    /// nonce and a tag together or too long for the cipher, and where the
    /// cipher does not accept what follows the nonce; what is accepted is a
    /// sealing of the plaintext that comes back.
    pub fn decrypt(&self, ciphertext: &[u8]) -> (r: core::result::Result<Vec<u8>, Error>)
        ensures
            match decrypted(self.spec_key(), ciphertext@) {
                Some(plaintext) => r matches Ok(opened) && opened@ == plaintext && is_sealing(
                    self.spec_key(),
                    plaintext,
                    ciphertext@,
                ),
                None => r matches Err(Error::Encryption(_)),
            },
            ciphertext@.len() < NONCE_LEN + TAG_LEN ==> r is Err,
    {
        proof {
            use_type_invariant(self);
        }
        if ciphertext.len() < NONCE_LEN {
            return Err(Error::Encryption(String::from_str("Ciphertext too short")));
        }
        if ciphertext.len() >= NONCE_LEN + TAG_LEN && !fits_counter(
            ciphertext.len() - NONCE_LEN - TAG_LEN,
        ) {
            return Err(Error::Encryption(String::from_str("message too long")));
        }
        let nonce = slice_subrange(ciphertext, 0, NONCE_LEN);
        let body = slice_subrange(ciphertext, NONCE_LEN, ciphertext.len());
        match aead_open(self.key.as_slice(), nonce, body) {
            Some(opened) => Ok(opened),
            None => Err(Error::Encryption(String::from_str("aead::Error"))),
        }
    }
}

/// The identifier of a chunk with the plaintext `data`.
pub fn hash_data(data: &[u8]) -> (id: ChunkID)
    ensures
        id@ == blake3_digest(data@),
{
    ChunkID::from_data(data)
}

/// Decryption inverts encryption: whatever nonce was drawn, what `encrypt`
/// can return for a message opens to that message and to no other.
pub proof fn lemma_decrypt_inverts_encrypt(key: Seq<u8>, plaintext: Seq<u8>, sealed: Seq<u8>)
    requires
        is_sealing(key, plaintext, sealed),
    ensures
        decrypted(key, sealed) == Some(plaintext),
        forall|other: Seq<u8>| decrypted(key, sealed) == Some(other) ==> other == plaintext,
{
}

/// Equal plaintexts have equal identifiers, so chunks with different
/// identifiers differ.
pub proof fn lemma_identity_follows_content(first: Seq<u8>, second: Seq<u8>)
    ensures
        first == second ==> blake3_digest(first) == blake3_digest(second),
        blake3_digest(first) != blake3_digest(second) ==> first != second,
{
}

} // verus!
