//! The repository: how a session is opened, where each kind of object
//! lives, and how objects are sealed for the blob store and opened again.
//!
//! The library does not touch the blob store.  It says under which path an
//! object goes and what bytes go there, and it takes what was fetched.

use crate::crypto::{
    Encryptor, MasterKey, costs_of, decrypted, derived_key, is_sealing, sealable_len, KEY_LEN,
};
use crate::error::Error;
use crate::hexcode::hex_lower;
use crate::pack::{ChunkRead, PackFile, chunk_read, is_pack_encoding, pack_opened, pack_storable};
use crate::snapshot::{Snapshot, Tree, texts};
use crate::text::{begins_with, chars_of, has_prefix};
use crate::types::{
    ChunkID, KdfParams, KdfParamsView, RepoConfig, RepoConfigView, blake3_digest, fresh_uuid,
    CHUNKER_POLYNOMIAL, FORMAT_VERSION,
};
use vstd::prelude::*;
use vstd::string::StrSliceExecFns;
use vstd::string::StringExecFns;
use vstd::string::StringSliceAdditionalSpecFns;

verus! {

/// The path of the configuration.
pub open spec fn config_path_of() -> Seq<char> {
    "config"@
}

/// The path of the key file with the identifier given.
pub open spec fn key_path_of(id: Seq<char>) -> Seq<char> {
    "keys/"@ + id
}

/// The path of the snapshot with the identifier given.
pub open spec fn snapshot_path_of(id: Seq<char>) -> Seq<char> {
    "snapshots/"@ + id
}

/// The path of the pack with the identifier given.
pub open spec fn pack_path_of(id: Seq<char>) -> Seq<char> {
    "data/"@ + id + ".pack"@
}

/// The path of the tree with the identifier given.
pub open spec fn tree_path_of(id: Seq<u8>) -> Seq<char> {
    "data/"@ + hex_lower(id)
}

/// The path of the index entry of the chunk with the identifier given.
pub open spec fn index_path_of(id: Seq<u8>) -> Seq<char> {
    "index/"@ + hex_lower(id)
}

pub fn config_path() -> (path: String)
    ensures
        path@ == config_path_of(),
{
    String::from_str("config")
}

pub fn key_path(id: &str) -> (path: String)
    ensures
        path@ == key_path_of(id@),
{
    String::from_str("keys/").concat(id)
}

pub fn snapshot_path(id: &str) -> (path: String)
    ensures
        path@ == snapshot_path_of(id@),
{
    String::from_str("snapshots/").concat(id)
}

pub fn pack_path(id: &str) -> (path: String)
    ensures
        path@ == pack_path_of(id@),
{
    String::from_str("data/").concat(id).concat(".pack")
}

pub fn tree_path(id: &ChunkID) -> (path: String)
    ensures
        path@ == tree_path_of(id@),
{
    String::from_str("data/").concat(id.to_hex().as_str())
}

pub fn index_path(id: &ChunkID) -> (path: String)
    ensures
        path@ == index_path_of(id@),
{
    String::from_str("index/").concat(id.to_hex().as_str())
}

/// The directories of a repository: packs and trees, index entries,
/// snapshots, key files, and locks.
pub fn layout_directories() -> (dirs: Vec<String>)
    ensures
        dirs@.len() == 5,
        dirs@[0]@ == "data"@,
        dirs@[1]@ == "index"@,
        dirs@[2]@ == "snapshots"@,
        dirs@[3]@ == "keys"@,
        dirs@[4]@ == "locks"@,
{
    let mut dirs: Vec<String> = Vec::new();
    dirs.push(String::from_str("data"));
    dirs.push(String::from_str("index"));
    dirs.push(String::from_str("snapshots"));
    dirs.push(String::from_str("keys"));
    dirs.push(String::from_str("locks"));
    dirs
}

/// The data key of a repository, sealed under a key derived from the
/// password, with the parameters of that derivation.
#[derive(Debug)]
pub struct KeyFile {
    pub encrypted_key: Vec<u8>,
    pub kdf_params: KdfParams,
}

/// What a `KeyFile` holds, as plain values.
pub ghost struct KeyFileView {
    pub encrypted_key: Seq<u8>,
    pub kdf_params: KdfParamsView,
}

impl View for KeyFile {
    type V = KeyFileView;

    open spec fn view(&self) -> KeyFileView {
        KeyFileView { encrypted_key: self.encrypted_key@, kdf_params: self.kdf_params@ }
    }
}

/// Where a chunk lies: the content of its index entry.
#[derive(Debug)]
pub struct ChunkLocation {
    pub pack_id: String,
    pub offset: u64,
    pub length: u32,
}

/// What a `ChunkLocation` holds, as plain values.
pub ghost struct ChunkLocationView {
    pub pack_id: Seq<char>,
    pub offset: u64,
    pub length: u32,
}

impl View for ChunkLocation {
    type V = ChunkLocationView;

    open spec fn view(&self) -> ChunkLocationView {
        ChunkLocationView { pack_id: self.pack_id@, offset: self.offset, length: self.length }
    }
}

/// The key-encryption key that `password` gives for a key file.
pub open spec fn key_encryption_key(password: Seq<u8>, key_file: KeyFileView) -> Option<Seq<u8>> {
    derived_key(
        password,
        key_file.kdf_params.salt,
        crate::crypto::KdfParamsModel {
            memory: key_file.kdf_params.memory,
            iterations: key_file.kdf_params.iterations,
            parallelism: key_file.kdf_params.parallelism,
        },
    )
}

/// The data key that `password` unseals from a key file: the file's sealed
/// key opened under the key derived from the password, if that is a key of
/// 32 bytes.
pub open spec fn unsealed_by(password: Seq<u8>, key_file: KeyFileView) -> Option<Seq<u8>> {
    match key_encryption_key(password, key_file) {
        None => None,
        Some(kek) => if kek.len() != KEY_LEN {
            None
        } else {
            match decrypted(kek, key_file.encrypted_key) {
                Some(key) => if key.len() == KEY_LEN {
                    Some(key)
                } else {
                    None
                },
                None => None,
            }
        },
    }
}

/// The views of a list of key files.
pub open spec fn key_file_views(files: Seq<KeyFile>) -> Seq<KeyFileView> {
    Seq::new(files.len(), |i: int| files[i]@)
}

/// Whether `index` is the first key file that `password` unseals.
pub open spec fn is_first_unsealed(password: Seq<u8>, files: Seq<KeyFileView>, index: int) -> bool {
    &&& 0 <= index < files.len()
    &&& unsealed_by(password, files[index]) is Some
    &&& forall|j: int| 0 <= j < index ==> (#[trigger] unsealed_by(password, files[j])) is None
}

/// What was fetched from the blob store under a path.
#[derive(Debug)]
pub enum Fetched {
    /// The object.
    Found(Vec<u8>),
    /// No object lives under the path.
    Missing,
    /// The store failed, with this message.
    Failed(String),
}

/// An object to be put into the blob store.
#[derive(Debug)]
pub struct BlobWrite {
    pub path: String,
    pub data: Vec<u8>,
}

/// An open repository: its place, its configuration, and the keys of the
/// session.
pub struct Repository {
    path: String,
    config: RepoConfig,
    master_key: Option<MasterKey>,
    encryptor: Option<Encryptor>,
}

/// A repository that was just set up, with the key file that has to be
/// stored for it and the identifier to store it under.
pub struct NewRepository {
    pub repository: Repository,
    pub key_id: String,
    pub key_file: KeyFile,
}

/// Unseals the data key of a key file with a password.
pub fn unseal_key(password: &str, key_file: &KeyFile) -> (r: Option<Encryptor>)
    ensures
        match unsealed_by(password.spec_bytes(), key_file@) {
            Some(key) => r matches Some(e) && e.spec_key() == key,
            None => r is None,
        },
{
    let kek = match MasterKey::derive_from_password(
        password,
        key_file.kdf_params.salt.as_slice(),
        &key_file.kdf_params,
    ) {
        Ok(kek) => kek,
        Err(_) => {
            return None;
        },
    };
    let opener = match Encryptor::new(kek.as_bytes()) {
        Ok(opener) => opener,
        Err(_) => {
            return None;
        },
    };
    let key = match opener.decrypt(key_file.encrypted_key.as_slice()) {
        Ok(key) => key,
        Err(_) => {
            return None;
        },
    };
    match Encryptor::new(key.as_slice()) {
        Ok(encryptor) => Some(encryptor),
        Err(_) => None,
    }
}

/// Seals a data key under the key that a password gives with the
/// parameters given.  The key is sealed exactly when Argon2id derives a key
/// from the password.
pub fn seal_key(password: &str, params: KdfParams, key: &[u8]) -> (r: core::result::Result<
    (MasterKey, KeyFile),
    Error,
>)
    requires
        key@.len() == KEY_LEN,
    ensures
        match derived_key(password.spec_bytes(), params@.salt, costs_of(&params)) {
            Some(kek) => r matches Ok((master, file)) && master@ == kek && file@.kdf_params
                == params@ && unsealed_by(password.spec_bytes(), file@) == Some(key@),
            None => r matches Err(Error::Encryption(_)),
        },
{
    let master = match MasterKey::derive_from_password(password, params.salt.as_slice(), &params) {
        Ok(master) => master,
        Err(e) => {
            return Err(e);
        },
    };
    let sealer = match Encryptor::new(master.as_bytes()) {
        Ok(sealer) => sealer,
        Err(e) => {
            return Err(e);
        },
    };
    let encrypted_key = match sealer.encrypt(key) {
        Ok(sealed) => sealed,
        Err(e) => {
            return Err(e);
        },
    };
    Ok((master, KeyFile { encrypted_key, kdf_params: params }))
}

/// The costs of the key derivation of a new repository.
pub open spec fn fresh_costs() -> crate::crypto::KdfParamsModel {
    crate::crypto::KdfParamsModel { memory: 65536, iterations: 1, parallelism: 4 }
}

/// Whether Argon2id refuses to derive a key from the password with the
/// costs of a new repository and some salt of 32 bytes.
pub open spec fn derivation_refused(password: Seq<u8>) -> bool {
    exists|salt: Seq<u8>| salt.len() == 32 && (#[trigger] derived_key(password, salt, fresh_costs())) is None
}

impl Repository {
    /// Where the repository lives.
    pub closed spec fn spec_path(&self) -> Seq<char> {
        self.path@
    }

    /// The configuration of the repository.
    pub closed spec fn spec_config(&self) -> RepoConfigView {
        self.config@
    }

    /// The data key of the session, if the repository is unlocked.
    pub closed spec fn spec_data_key(&self) -> Option<Seq<u8>> {
        match self.encryptor {
            Some(e) => Some(e.spec_key()),
            None => None,
        }
    }

    /// Sets up a new repository.
    ///
    /// `config_exists` tells whether the place already holds a
    /// configuration; if so, nothing is set up.  Otherwise the repository
    /// gets a fresh configuration, of the current format version, with a
    /// fresh identifier of 36 characters, the chunker polynomial, and
    /// Argon2id with one pass over 64 MiB in four lanes under a fresh salt
    /// of 32 bytes; and a fresh random data key, which is sealed under the
    /// password.  What comes back is to be stored: the
    /// configuration under `config`, the key file under its identifier.  The
    /// set-up fails only where Argon2id refuses to derive a key.
    pub fn init(path: &str, password: &str, config_exists: bool) -> (r: core::result::Result<
        NewRepository,
        Error,
    >)
        ensures
            config_exists ==> (r matches Err(Error::RepositoryExists { path: p }) && p@ == path@),
            !config_exists ==> match r {
                Ok(new) => {
                    &&& new.repository.spec_path() == path@
                    &&& new.repository.spec_config().version == FORMAT_VERSION
                    &&& new.repository.spec_config().id.len() == 36
                    &&& new.repository.spec_config().chunker_polynomial == CHUNKER_POLYNOMIAL
                    &&& new.repository.spec_config().kdf_params == new.key_file@.kdf_params
                    &&& new.repository.spec_config().kdf_params.algorithm == "argon2id"@
                    &&& new.repository.spec_config().kdf_params.iterations == 1
                    &&& new.repository.spec_config().kdf_params.memory == 65536
                    &&& new.repository.spec_config().kdf_params.parallelism == 4
                    &&& new.repository.spec_config().kdf_params.salt.len() == 32
                    &&& new.key_id@.len() == 36
                    &&& new.repository.spec_data_key() matches Some(key) && key.len() == KEY_LEN
                        && unsealed_by(password.spec_bytes(), new.key_file@) == Some(key)
                },
                Err(e) => e is Encryption && derivation_refused(password.spec_bytes()),
            },
    {
        if config_exists {
            return Err(Error::RepositoryExists { path: String::from_str(path) });
        }
        let config = RepoConfig::default();
        let ghost salt = config.kdf_params.salt@;
        let data_key = MasterKey::generate();
        let encryptor = match Encryptor::new(data_key.as_bytes()) {
            Ok(encryptor) => encryptor,
            Err(e) => {
                return Err(e);
            },
        };
        let (master_key, key_file) = match seal_key(
            password,
            config.kdf_params.clone(),
            data_key.as_bytes(),
        ) {
            Ok(sealed) => sealed,
            Err(e) => {
                assert(derived_key(password.spec_bytes(), salt, fresh_costs()) is None);
                return Err(e);
            },
        };
        Ok(
            NewRepository {
                repository: Repository {
                    path: String::from_str(path),
                    config,
                    master_key: Some(master_key),
                    encryptor: Some(encryptor),
                },
                key_id: fresh_uuid(),
                key_file,
            },
        )
    }

    /// Opens a repository with a password.
    ///
    /// `exists` tells whether the place holds anything; `config` is the
    /// stored configuration as it was read, or the reader's message;
    /// `key_files` are the key files found, in the order of their listing.
    /// The key files are tried in order, and the first that the password
    /// unseals gives the data key of the session.
    pub fn open(
        path: &str,
        password: &str,
        exists: bool,
        config: core::result::Result<RepoConfig, String>,
        key_files: &Vec<KeyFile>,
    ) -> (r: core::result::Result<Repository, Error>)
        ensures
            !exists ==> (r matches Err(Error::RepositoryNotFound { path: p }) && p@ == path@),
            exists ==> match config {
                Err(message) => r matches Err(Error::Serialization(m)) && m == message,
                Ok(stored) => if stored.version != FORMAT_VERSION {
                    r matches Err(Error::InvalidFormatVersion { version }) && version
                        == stored.version
                } else {
                    match r {
                        Ok(repository) => {
                            &&& repository.spec_path() == path@
                            &&& repository.spec_config() == stored@
                            &&& exists|index: int|
                                is_first_unsealed(
                                    password.spec_bytes(),
                                    key_file_views(key_files@),
                                    index,
                                ) && repository.spec_data_key() == #[trigger] unsealed_by(
                                    password.spec_bytes(),
                                    key_file_views(key_files@)[index],
                                )
                        },
                        Err(e) => {
                            &&& e is InvalidPassword
                            &&& forall|j: int|
                                0 <= j < key_files@.len() ==> (#[trigger] unsealed_by(
                                    password.spec_bytes(),
                                    key_file_views(key_files@)[j],
                                )) is None
                        },
                    }
                },
            },
    {
        if !exists {
            return Err(Error::RepositoryNotFound { path: String::from_str(path) });
        }
        let stored = match config {
            Ok(stored) => stored,
            Err(message) => {
                return Err(Error::Serialization(message));
            },
        };
        if stored.version != FORMAT_VERSION {
            return Err(Error::InvalidFormatVersion { version: stored.version });
        }
        let ghost files = key_file_views(key_files@);
        let mut i: usize = 0;
        while i < key_files.len()
            invariant
                i <= key_files.len(),
                exists,
                config == Ok::<RepoConfig, String>(stored),
                stored.version == FORMAT_VERSION,
                files == key_file_views(key_files@),
                forall|j: int|
                    0 <= j < i ==> (#[trigger] unsealed_by(password.spec_bytes(), files[j])) is None,
            decreases key_files.len() - i,
        {
            assert(files[i as int] == key_files@[i as int]@);
            match unseal_key(password, &key_files[i]) {
                Some(encryptor) => {
                    assert(is_first_unsealed(password.spec_bytes(), files, i as int));
                    return Ok(
                        Repository {
                            path: String::from_str(path),
                            config: stored,
                            master_key: None,
                            encryptor: Some(encryptor),
                        },
                    );
                },
                None => {},
            }
            i += 1;
        }
        Err(Error::InvalidPassword)
    }

    /// Seals the data key of the session under a new password, with fresh
    /// parameters.  The key file that comes back is unsealed by the new
    /// password to the same data key, so every object stays readable.
    pub fn rotate_password(&self, new_password: &str) -> (r: core::result::Result<KeyFile, Error>)
        ensures
            match r {
                Ok(file) => self.spec_data_key() matches Some(key) && unsealed_by(
                    new_password.spec_bytes(),
                    file@,
                ) == Some(key),
                Err(e) => match self.spec_data_key() {
                    None => e is Other,
                    Some(_) => e is Encryption && derivation_refused(new_password.spec_bytes()),
                },
            },
    {
        let encryptor = match &self.encryptor {
            Some(encryptor) => encryptor,
            None => {
                return Err(Error::Other(String::from_str("Repository not unlocked")));
            },
        };
        let params = KdfParams::default();
        let ghost salt = params.salt@;
        match seal_key(new_password, params, encryptor.key()) {
            Ok((_, file)) => Ok(file),
            Err(e) => {
                assert(derived_key(new_password.spec_bytes(), salt, fresh_costs()) is None);
                Err(e)
            },
        }
    }

    pub fn path(&self) -> (path: &str)
        ensures
            path@ == self.spec_path(),
    {
        self.path.as_str()
    }

    pub fn config(&self) -> (config: &RepoConfig)
        ensures
            config@ == self.spec_config(),
    {
        &self.config
    }

    /// The encryptor of the session, if the repository is unlocked.
    pub fn encryptor(&self) -> (r: core::result::Result<&Encryptor, Error>)
        ensures
            match self.spec_data_key() {
                Some(key) => r matches Ok(e) && e.spec_key() == key,
                None => r matches Err(Error::Other(m)) && m@ == "Repository not unlocked"@,
            },
    {
        match &self.encryptor {
            Some(encryptor) => Ok(encryptor),
            None => Err(Error::Other(String::from_str("Repository not unlocked"))),
        }
    }
}

/// After a rotation the new password opens the repository to the same
/// data key, in whatever order the key files are listed: where one of the
/// key files is unsealed by the password to the key, and no key file is
/// unsealed by it to another key, the first key file that the password
/// unseals gives that key.
pub proof fn lemma_rotated_key_opens(password: Seq<u8>, files: Seq<KeyFileView>, rotated: int, key: Seq<u8>)
    requires
        0 <= rotated < files.len(),
        unsealed_by(password, files[rotated]) == Some(key),
        forall|j: int|
            0 <= j < files.len() && (#[trigger] unsealed_by(password, files[j])) is Some
                ==> unsealed_by(password, files[j]) == Some(key),
    ensures
        exists|index: int| is_first_unsealed(password, files, index),
        forall|index: int|
            is_first_unsealed(password, files, index) ==> unsealed_by(password, files[index])
                == Some(key),
{
    lemma_first_unsealed_exists(password, files, rotated);
}

/// Among key files of which one is unsealed, one is the first.
proof fn lemma_first_unsealed_exists(password: Seq<u8>, files: Seq<KeyFileView>, upto: int)
    requires
        0 <= upto < files.len(),
        unsealed_by(password, files[upto]) is Some,
    ensures
        exists|index: int| is_first_unsealed(password, files, index),
    decreases upto,
{
    if exists|j: int| 0 <= j < upto && (#[trigger] unsealed_by(password, files[j])) is Some {
        let j = choose|j: int| 0 <= j < upto && (#[trigger] unsealed_by(password, files[j])) is Some;
        lemma_first_unsealed_exists(password, files, j);
    } else {
        assert(is_first_unsealed(password, files, upto));
    }
}

/// What was sealed under the data key opens under it, in whatever session:
/// an object that a session stored is read back as the same bytes by every
/// session with the same data key, so that a rotation of the password, which
/// keeps the data key, leaves every object readable and rewrites none.
pub proof fn lemma_stored_object_opens(
    key: Seq<u8>,
    plain: Seq<u8>,
    stored: Seq<u8>,
    r: core::result::Result<Vec<u8>, Error>,
)
    requires
        is_sealing(key, plain, stored),
        object_opened(Some(key), stored, r),
    ensures
        r matches Ok(bytes) && bytes@ == plain,
{
}

/// The snapshot identifiers in a listing of paths: what follows
/// `snapshots/` in each path that begins with it, in the order of the
/// listing.
pub open spec fn snapshot_ids_of(listing: Seq<Seq<char>>) -> Seq<Seq<char>>
    decreases listing.len(),
{
    if listing.len() == 0 {
        Seq::empty()
    } else {
        let before = snapshot_ids_of(listing.drop_last());
        let path = listing.last();
        if begins_with(path, "snapshots/"@) {
            before.push(path.subrange(10, path.len() as int))
        } else {
            before
        }
    }
}

/// What loading an object that was sealed as a whole comes to.
pub open spec fn object_opened(key: Option<Seq<u8>>, data: Seq<u8>, r: core::result::Result<Vec<u8>, Error>) -> bool {
    match key {
        None => r matches Err(Error::Other(_)),
        Some(k) => match decrypted(k, data) {
            Some(plain) => r matches Ok(bytes) && bytes@ == plain,
            None => r matches Err(Error::Encryption(_)),
        },
    }
}

/// What sealing the JSON form of an object for the path `path` comes to.
pub open spec fn object_sealed(
    key: Option<Seq<u8>>,
    json: core::result::Result<Vec<u8>, String>,
    path: Seq<char>,
    r: core::result::Result<BlobWrite, Error>,
) -> bool {
    match key {
        None => r matches Err(Error::Other(_)),
        Some(k) => match json {
            Err(_) => r matches Err(Error::Other(_)),
            Ok(plain) => if sealable_len(plain@.len()) {
                r matches Ok(write) && write.path@ == path && is_sealing(k, plain@, write.data@)
            } else {
                r matches Err(Error::Encryption(_))
            },
        },
    }
}

impl Repository {
    /// The object to store for a snapshot: its sealed JSON form under
    /// `snapshots/` and its identifier.
    pub fn save_snapshot(&self, id: &str, json: core::result::Result<Vec<u8>, String>) -> (r:
        core::result::Result<BlobWrite, Error>)
        ensures
            object_sealed(self.spec_data_key(), json, snapshot_path_of(id@), r),
    {
        let encryptor = match self.encryptor() {
            Ok(encryptor) => encryptor,
            Err(e) => {
                return Err(e);
            },
        };
        match Snapshot::serialize(json, encryptor) {
            Ok(data) => Ok(BlobWrite { path: snapshot_path(id), data }),
            Err(e) => Err(e),
        }
    }

    /// Opens what was fetched for a snapshot and hands out its JSON form.
    /// A snapshot that is not there is reported as not found.
    pub fn load_snapshot(&self, id: &str, fetched: Fetched) -> (r: core::result::Result<Vec<u8>, Error>)
        ensures
            self.spec_data_key() is None ==> r matches Err(Error::Other(_)),
            self.spec_data_key() is Some ==> match fetched {
                Fetched::Missing => r matches Err(Error::SnapshotNotFound { id: name }) && name@
                    == id@,
                Fetched::Failed(message) => r matches Err(Error::Io(m)) && m == message,
                Fetched::Found(data) => object_opened(self.spec_data_key(), data@, r),
            },
    {
        let encryptor = match self.encryptor() {
            Ok(encryptor) => encryptor,
            Err(e) => {
                return Err(e);
            },
        };
        match fetched {
            Fetched::Missing => Err(Error::SnapshotNotFound { id: String::from_str(id) }),
            Fetched::Failed(message) => Err(Error::Io(message)),
            Fetched::Found(data) => Snapshot::deserialize(data.as_slice(), encryptor),
        }
    }

    /// The identifiers of the snapshots in a listing of `snapshots/`.
    pub fn list_snapshots(listing: &Vec<String>) -> (ids: Vec<String>)
        ensures
            texts(ids@) == snapshot_ids_of(texts(listing@)),
    {
        let prefix = chars_of("snapshots/");
        proof {
            reveal_strlit("snapshots/");
        }
        let ghost paths = texts(listing@);
        let mut ids: Vec<String> = Vec::new();
        let mut i: usize = 0;
        assert(paths.subrange(0, 0) =~= Seq::<Seq<char>>::empty());
        assert(texts(ids@) =~= Seq::<Seq<char>>::empty());
        while i < listing.len()
            invariant
                i <= listing.len(),
                paths == texts(listing@),
                prefix@ == "snapshots/"@,
                prefix@.len() == 10,
                texts(ids@) == snapshot_ids_of(paths.subrange(0, i as int)),
            decreases listing.len() - i,
        {
            let path = listing[i].as_str();
            let chars = chars_of(path);
            let ghost before = texts(ids@);
            proof {
                let head = paths.subrange(0, i + 1);
                assert(head.drop_last() =~= paths.subrange(0, i as int));
                assert(head.last() == path@);
            }
            if has_prefix(&chars, &prefix) {
                let id = String::from_str(path.substring_char(10, chars.len()));
                ids.push(id);
                assert(texts(ids@) =~= before.push(path@.subrange(10, path@.len() as int)));
            }
            i += 1;
        }
        assert(paths.subrange(0, paths.len() as int) =~= paths);
        ids
    }

    /// The object to store for a tree, and the identifier of the tree.
    ///
    /// The identifier is the digest of the JSON form before it is sealed,
    /// so that equal trees have equal identifiers whatever nonce is drawn.
    pub fn save_tree(&self, json: core::result::Result<Vec<u8>, String>) -> (r: core::result::Result<
        (ChunkID, BlobWrite),
        Error,
    >)
        ensures
            match self.spec_data_key() {
                None => r matches Err(Error::Other(_)),
                Some(key) => match json {
                    Err(_) => r matches Err(Error::Other(_)),
                    Ok(plain) => if sealable_len(plain@.len()) {
                        r matches Ok((id, write)) && id@ == blake3_digest(plain@) && write.path@
                            == tree_path_of(id@) && is_sealing(key, plain@, write.data@)
                    } else {
                        r matches Err(Error::Encryption(_))
                    },
                },
            },
    {
        let encryptor = match self.encryptor() {
            Ok(encryptor) => encryptor,
            Err(e) => {
                return Err(e);
            },
        };
        let id = match &json {
            Ok(plain) => Some(ChunkID::from_data(plain.as_slice())),
            Err(_) => None,
        };
        match Tree::serialize(json, encryptor) {
            Ok(data) => match id {
                Some(id) => Ok((id, BlobWrite { path: tree_path(&id), data })),
                None => Err(Error::Other(String::from_str("Failed to serialize tree"))),
            },
            Err(e) => Err(e),
        }
    }

    /// Opens what was fetched for a tree and hands out its JSON form.  A
    /// tree that is not there is reported as a chunk that was not found.
    pub fn load_tree(&self, tree_id: &ChunkID, fetched: Fetched) -> (r: core::result::Result<
        Vec<u8>,
        Error,
    >)
        ensures
            self.spec_data_key() is None ==> r matches Err(Error::Other(_)),
            self.spec_data_key() is Some ==> match fetched {
                Fetched::Missing => r matches Err(Error::ChunkNotFound { id: name }) && name@
                    == hex_lower(tree_id@),
                Fetched::Failed(message) => r matches Err(Error::Io(m)) && m == message,
                Fetched::Found(data) => object_opened(self.spec_data_key(), data@, r),
            },
    {
        let encryptor = match self.encryptor() {
            Ok(encryptor) => encryptor,
            Err(e) => {
                return Err(e);
            },
        };
        match fetched {
            Fetched::Missing => Err(Error::ChunkNotFound { id: tree_id.to_hex() }),
            Fetched::Failed(message) => Err(Error::Io(message)),
            Fetched::Found(data) => Tree::deserialize(data.as_slice(), encryptor),
        }
    }

    /// The object to store for a pack: its stored form under `data/`, its
    /// identifier and `.pack`.
    pub fn save_pack(&self, pack: &PackFile) -> (r: core::result::Result<BlobWrite, Error>)
        ensures
            match self.spec_data_key() {
                None => r matches Err(Error::Other(_)),
                Some(key) => if pack_storable(pack@) {
                    r matches Ok(write) && write.path@ == pack_path_of(pack@.header.pack_id)
                        && is_pack_encoding(key, pack@, write.data@)
                } else {
                    r matches Err(e) && (e is Encryption || e is Other)
                },
            },
    {
        let encryptor = match self.encryptor() {
            Ok(encryptor) => encryptor,
            Err(e) => {
                return Err(e);
            },
        };
        match pack.write_to(encryptor) {
            Ok(data) => Ok(BlobWrite { path: pack_path(pack.header.pack_id.as_str()), data }),
            Err(e) => Err(e),
        }
    }

    /// Reads what was fetched for a pack.  A pack that is not there is
    /// reported as an I/O error, a pack that does not open as corrupt.
    pub fn load_pack(&self, pack_id: &str, fetched: Fetched) -> (r: core::result::Result<PackFile, Error>)
        ensures
            self.spec_data_key() is None ==> r matches Err(Error::Other(_)),
            self.spec_data_key() matches Some(key) ==> match fetched {
                Fetched::Missing => r matches Err(Error::Io(_)),
                Fetched::Failed(message) => r matches Err(Error::Io(m)) && m == message,
                Fetched::Found(data) => match pack_opened(key, data@) {
                    Some(pack) => r matches Ok(p) && p@ == pack,
                    None => r matches Err(Error::CorruptedPack { id }) && id@ == pack_id@,
                },
            },
    {
        let encryptor = match self.encryptor() {
            Ok(encryptor) => encryptor,
            Err(e) => {
                return Err(e);
            },
        };
        match fetched {
            Fetched::Missing => Err(
                Error::Io(String::from_str("pack not found: ").concat(pack_id)),
            ),
            Fetched::Failed(message) => Err(Error::Io(message)),
            Fetched::Found(data) => PackFile::read_from(pack_id, data.as_slice(), encryptor),
        }
    }

    /// The index entry to store for a chunk: its path and its content.
    pub fn save_chunk_location(chunk_id: &ChunkID, pack_id: &str, offset: u64, length: u32) -> (entry: (
        String,
        ChunkLocation,
    ))
        ensures
            entry.0@ == index_path_of(chunk_id@),
            entry.1@ == (ChunkLocationView { pack_id: pack_id@, offset, length }),
    {
        (index_path(chunk_id), ChunkLocation { pack_id: String::from_str(pack_id), offset, length })
    }

    /// Hands out what was fetched for the index entry of a chunk: the JSON
    /// form of its location.  A chunk without an index entry is reported as
    /// not found, and no pack is asked for.
    pub fn load_chunk_location(chunk_id: &ChunkID, fetched: Fetched) -> (r: core::result::Result<
        Vec<u8>,
        Error,
    >)
        ensures
            match fetched {
                Fetched::Missing => r matches Err(Error::ChunkNotFound { id }) && id@ == hex_lower(
                    chunk_id@,
                ),
                Fetched::Failed(message) => r matches Err(Error::Io(m)) && m == message,
                Fetched::Found(data) => r matches Ok(bytes) && bytes@ == data@,
            },
    {
        match fetched {
            Fetched::Missing => Err(Error::ChunkNotFound { id: chunk_id.to_hex() }),
            Fetched::Failed(message) => Err(Error::Io(message)),
            Fetched::Found(data) => Ok(data),
        }
    }

    /// Reads a chunk from the pack that its index entry names.
    pub fn load_chunk(chunk_id: &ChunkID, pack: &PackFile) -> (r: core::result::Result<Vec<u8>, Error>)
        ensures
            match chunk_read(pack@, chunk_id@) {
                ChunkRead::Corrupt => r matches Err(Error::CorruptedPack { id: name }) && name@
                    == pack@.header.pack_id,
                ChunkRead::Missing => r matches Err(Error::ChunkNotFound { id: name }) && name@
                    == hex_lower(chunk_id@),
                ChunkRead::Garbled => r matches Err(Error::Other(_)),
                ChunkRead::Plain(plain) => r matches Ok(bytes) && bytes@ == plain,
            },
    {
        pack.get_chunk(chunk_id)
    }
}

} // verus!
