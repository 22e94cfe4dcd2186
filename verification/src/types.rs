//! Identifiers and the records that trees, packs and the repository
//! configuration are made of.

use crate::error::HexError;
use crate::hexcode::{hex_decoded, hex_lower};
use vstd::prelude::*;
use vstd::std_specs::cmp::PartialEqSpecImpl;
use vstd::string::StringExecFns;
use vstd::string::StrSliceExecFns;
use vstd::string::StringSliceAdditionalSpecFns;

verus! {

/// The Blake3 digest of `data`, as the 32 bytes that `blake3::hash` computes.
pub uninterp spec fn blake3_digest(data: Seq<u8>) -> Seq<u8>;

/// Calls `blake3::hash`.  The contract names the digest and claims nothing
/// else of it; that it has 32 bytes is in the type.
#[verifier::external_body]
fn blake3_hash(data: &[u8]) -> (digest: [u8; 32])
    ensures
        digest@ == blake3_digest(data@),
{
    *blake3::hash(data).as_bytes()
}

/// Calls `blake3::Hash::to_hex`, which writes each byte as two lower-case
/// hexadecimal digits, the high half first.
#[verifier::external_body]
fn blake3_to_hex(bytes: &[u8; 32]) -> (text: String)
    ensures
        text@ == hex_lower(bytes@),
{
    blake3::Hash::from_bytes(*bytes).to_hex().to_string()
}

/// What a decoding result holds, the bytes as a sequence.
pub open spec fn decoded_view(decoded: core::result::Result<Vec<u8>, HexError>) -> core::result::Result<
    Seq<u8>,
    HexError,
> {
    match decoded {
        Ok(bytes) => Ok(bytes@),
        Err(e) => Err(e),
    }
}

/// Calls `hex::decode`, which rejects an odd number of digits, then the first
/// byte that is no hexadecimal digit of either case, and else returns one byte
/// for each pair of digits.
#[verifier::external_body]
fn hex_decode(text: &[u8]) -> (decoded: core::result::Result<Vec<u8>, HexError>)
    ensures
        decoded_view(decoded) == hex_decoded(text@),
{
    hex::decode(text).map_err(
        |e| match e {
            hex::FromHexError::InvalidHexCharacter { c, index } => HexError::InvalidHexCharacter {
                c,
                index,
            },
            hex::FromHexError::OddLength => HexError::OddLength,
            hex::FromHexError::InvalidStringLength => HexError::InvalidStringLength,
        },
    )
}

/// Calls `uuid::Uuid::new_v4` and writes the identifier in its hyphenated
/// form of 36 characters.  Which identifier comes back is left open.
#[verifier::external_body]
pub(crate) fn fresh_uuid() -> (id: String)
    ensures
        id@.len() == 36,
{
    uuid::Uuid::new_v4().to_string()
}

/// Fills a new buffer of `len` bytes by `rand::thread_rng().fill_bytes`.
/// Only the length is known of what comes back.
#[verifier::external_body]
fn thread_random_bytes(len: usize) -> (bytes: Vec<u8>)
    ensures
        bytes.len() == len,
{
    let mut bytes = vec![0u8; len];
    rand::RngCore::fill_bytes(&mut rand::thread_rng(), &mut bytes);
    bytes
}

/// The identity of a chunk: the 32-byte digest of its plaintext.
#[derive(Debug, Clone, Copy, Eq, Hash)]
pub struct ChunkID {
    bytes: [u8; 32],
}

impl View for ChunkID {
    type V = Seq<u8>;

    open spec fn view(&self) -> Seq<u8> {
        self.spec_bytes()
    }
}

impl PartialEq for ChunkID {
    fn eq(&self, other: &ChunkID) -> (r: bool) {
        let mut i: usize = 0;
        while i < 32
            invariant
                i <= 32,
                forall|j: int| 0 <= j < i ==> self.bytes@[j] == other.bytes@[j],
            decreases 32 - i,
        {
            if self.bytes[i] != other.bytes[i] {
                return false;
            }
            i += 1;
        }
        assert(self.bytes@ =~= other.bytes@);
        true
    }
}

impl PartialEqSpecImpl for ChunkID {
    open spec fn obeys_eq_spec() -> bool {
        true
    }

    open spec fn eq_spec(&self, other: &ChunkID) -> bool {
        self@ == other@
    }
}

impl ChunkID {
    /// The 32 bytes of the identifier.
    pub closed spec fn spec_bytes(&self) -> Seq<u8> {
        self.bytes@
    }

    /// An identifier always has 32 bytes.
    pub proof fn lemma_view(self)
        ensures
            self@.len() == 32,
    {
    }

    /// Identifiers are equal exactly when their bytes are.
    pub proof fn lemma_equal_by_view(self, other: ChunkID)
        ensures
            (self@ == other@) <==> (self == other),
    {
        if self@ == other@ {
            assert(self.bytes =~= other.bytes);
        }
    }

    pub fn new(bytes: [u8; 32]) -> (id: Self)
        ensures
            id@ == bytes@,
    {
        Self { bytes }
    }

    /// The identifier of a chunk with the plaintext `data`.
    pub fn from_data(data: &[u8]) -> (id: Self)
        ensures
            id@ == blake3_digest(data@),
    {
        Self { bytes: blake3_hash(data) }
    }

    pub fn as_bytes(&self) -> (bytes: &[u8; 32])
        ensures
            bytes@ == self@,
    {
        &self.bytes
    }

    /// The identifier in lower-case hexadecimal, 64 digits.
    pub fn to_hex(&self) -> (text: String)
        ensures
            text@ == hex_lower(self@),
            text@.len() == 64,
    {
        blake3_to_hex(&self.bytes)
    }

    /// The first eight digits of the hexadecimal form.
    pub fn short_string(&self) -> (text: String)
        ensures
            text@ == hex_lower(self@).subrange(0, 8),
    {
        let full = self.to_hex();
        String::from_str(full.as_str().substring_char(0, 8))
    }

    /// Reads an identifier from its hexadecimal form, of either case.
    ///
    /// The text is rejected with the decoder's own error where it is no
    /// hexadecimal string, and with `InvalidStringLength` where it stands for
    /// a number of bytes other than 32.
    pub fn from_hex(text: &str) -> (parsed: core::result::Result<ChunkID, HexError>)
        ensures
            match hex_decoded(text.spec_bytes()) {
                Ok(bytes) => if bytes.len() == 32 {
                    parsed matches Ok(id) && id@ == bytes
                } else {
                    parsed matches Err(HexError::InvalidStringLength)
                },
                Err(e) => parsed matches Err(f) && f == e,
            },
    {
        match hex_decode(text.as_bytes()) {
            Err(e) => Err(e),
            Ok(decoded) => match ChunkID::from_slice(decoded.as_slice()) {
                Some(id) => Ok(id),
                None => Err(HexError::InvalidStringLength),
            },
        }
    }

    /// The identifier with the bytes given, if they are 32.
    pub fn from_slice(bytes: &[u8]) -> (r: Option<ChunkID>)
        ensures
            bytes@.len() == 32 ==> (r matches Some(id) && id@ == bytes@),
            bytes@.len() != 32 ==> r is None,
    {
        if bytes.len() != 32 {
            return None;
        }
        let mut copy = [0u8; 32];
        let mut i: usize = 0;
        while i < 32
            invariant
                i <= 32,
                bytes@.len() == 32,
                forall|j: int| 0 <= j < i ==> copy@[j] == bytes@[j],
            decreases 32 - i,
        {
            copy[i] = bytes[i];
            i += 1;
        }
        assert(copy@ =~= bytes@);
        Some(ChunkID { bytes: copy })
    }
}

impl core::str::FromStr for ChunkID {
    type Err = HexError;

    /// Reads an identifier from its hexadecimal form, as `from_hex` does.
    fn from_str(text: &str) -> (parsed: core::result::Result<ChunkID, HexError>)
        ensures
            match hex_decoded(text.spec_bytes()) {
                Ok(bytes) => if bytes.len() == 32 {
                    parsed matches Ok(id) && id@ == bytes
                } else {
                    parsed matches Err(HexError::InvalidStringLength)
                },
                Err(e) => parsed matches Err(f) && f == e,
            },
    {
        ChunkID::from_hex(text)
    }
}

pub type SnapshotID = String;

pub type PackID = String;

/// The parameters of the password hash that guards the data key.
#[derive(Debug)]
pub struct KdfParams {
    pub algorithm: String,
    pub iterations: u32,
    pub memory: u32,
    pub parallelism: u32,
    pub salt: Vec<u8>,
}

/// What a `KdfParams` holds, as plain values.
pub ghost struct KdfParamsView {
    pub algorithm: Seq<char>,
    pub iterations: u32,
    pub memory: u32,
    pub parallelism: u32,
    pub salt: Seq<u8>,
}

impl View for KdfParams {
    type V = KdfParamsView;

    open spec fn view(&self) -> KdfParamsView {
        KdfParamsView {
            algorithm: self.algorithm@,
            iterations: self.iterations,
            memory: self.memory,
            parallelism: self.parallelism,
            salt: self.salt@,
        }
    }
}

impl Clone for KdfParams {
    fn clone(&self) -> (copy: Self)
        ensures
            copy@ == self@,
    {
        KdfParams {
            algorithm: self.algorithm.clone(),
            iterations: self.iterations,
            memory: self.memory,
            parallelism: self.parallelism,
            salt: self.salt.clone(),
        }
    }
}

impl Default for KdfParams {
    /// Argon2id with one pass over 64 MiB in four lanes, and a fresh random
    /// salt of 32 bytes.
    fn default() -> (params: Self)
        ensures
            params@.algorithm == "argon2id"@,
            params.iterations == 1,
            params.memory == 65536,
            params.parallelism == 4,
            params.salt.len() == 32,
    {
        KdfParams {
            algorithm: String::from_str("argon2id"),
            iterations: 1,
            memory: 65536,
            parallelism: 4,
            salt: thread_random_bytes(32),
        }
    }
}

/// The format version that this engine reads and writes.
pub const FORMAT_VERSION: u32 = 1;

/// The chunker polynomial recorded in a new configuration.
pub const CHUNKER_POLYNOMIAL: u64 = 0x3DA3358B4DC173;

/// The configuration of a repository, stored unencrypted: it holds only
/// inputs of the key derivation, which are no secrets.
#[derive(Debug)]
pub struct RepoConfig {
    pub version: u32,
    pub id: String,
    pub chunker_polynomial: u64,
    pub kdf_params: KdfParams,
}

/// What a `RepoConfig` holds, as plain values.
pub ghost struct RepoConfigView {
    pub version: u32,
    pub id: Seq<char>,
    pub chunker_polynomial: u64,
    pub kdf_params: KdfParamsView,
}

impl View for RepoConfig {
    type V = RepoConfigView;

    open spec fn view(&self) -> RepoConfigView {
        RepoConfigView {
            version: self.version,
            id: self.id@,
            chunker_polynomial: self.chunker_polynomial,
            kdf_params: self.kdf_params@,
        }
    }
}

impl Clone for RepoConfig {
    fn clone(&self) -> (copy: Self)
        ensures
            copy@ == self@,
    {
        RepoConfig {
            version: self.version,
            id: self.id.clone(),
            chunker_polynomial: self.chunker_polynomial,
            kdf_params: self.kdf_params.clone(),
        }
    }
}

impl Default for RepoConfig {
    /// A configuration of the current format version with a fresh identifier
    /// and fresh key-derivation parameters.
    fn default() -> (config: Self)
        ensures
            config.version == FORMAT_VERSION,
            config.chunker_polynomial == CHUNKER_POLYNOMIAL,
            config.id@.len() == 36,
            config.kdf_params@.algorithm == "argon2id"@,
            config.kdf_params.iterations == 1,
            config.kdf_params.memory == 65536,
            config.kdf_params.parallelism == 4,
            config.kdf_params.salt.len() == 32,
    {
        RepoConfig {
            version: FORMAT_VERSION,
            id: fresh_uuid(),
            chunker_polynomial: CHUNKER_POLYNOMIAL,
            kdf_params: KdfParams::default(),
        }
    }
}

/// Where a chunk lies, as the in-memory index records it.
#[derive(Debug)]
pub struct ChunkMetadata {
    pub id: ChunkID,
    pub pack_id: PackID,
    pub offset: u64,
    pub length: u32,
    pub uncompressed_length: u32,
}

/// What a `ChunkMetadata` holds, as plain values.
pub ghost struct ChunkMetadataView {
    pub id: Seq<u8>,
    pub pack_id: Seq<char>,
    pub offset: u64,
    pub length: u32,
    pub uncompressed_length: u32,
}

impl View for ChunkMetadata {
    type V = ChunkMetadataView;

    open spec fn view(&self) -> ChunkMetadataView {
        ChunkMetadataView {
            id: self.id@,
            pack_id: self.pack_id@,
            offset: self.offset,
            length: self.length,
            uncompressed_length: self.uncompressed_length,
        }
    }
}

impl Clone for ChunkMetadata {
    fn clone(&self) -> (copy: Self)
        ensures
            copy@ == self@,
    {
        ChunkMetadata {
            id: self.id,
            pack_id: self.pack_id.clone(),
            offset: self.offset,
            length: self.length,
            uncompressed_length: self.uncompressed_length,
        }
    }
}

/// A reference from a file node to one of its chunks.  `offset` is kept for
/// the stored form and plays no part in reconstruction: where the bytes lie
/// is the index's business.
#[derive(Debug, Clone, Copy)]
pub struct ChunkRef {
    pub id: ChunkID,
    pub offset: u64,
    pub length: u32,
}

/// A file with the identifiers of its chunks.
#[derive(Debug)]
pub struct FileEntry {
    pub path: String,
    pub mode: u32,
    pub uid: u32,
    pub gid: u32,
    pub size: u64,
    pub mtime: i64,
    pub ctime: i64,
    pub chunks: Vec<ChunkID>,
}

#[derive(Debug, Clone, Copy, PartialEq, Eq, Structural)]
pub enum NodeType {
    File,
    Directory,
    Symlink,
}

/// One entry of a tree: a file with its chunks in order, a directory with
/// the identifier of its own tree, or a symlink.
#[derive(Debug)]
pub struct TreeNode {
    pub name: String,
    pub node_type: NodeType,
    pub mode: u32,
    pub uid: u32,
    pub gid: u32,
    pub size: u64,
    pub mtime: i64,
    pub subtree_id: Option<ChunkID>,
    pub chunks: Vec<ChunkRef>,
}

/// What a `TreeNode` holds, as plain values.
pub ghost struct TreeNodeView {
    pub name: Seq<char>,
    pub node_type: NodeType,
    pub mode: u32,
    pub uid: u32,
    pub gid: u32,
    pub size: u64,
    pub mtime: i64,
    pub subtree_id: Option<ChunkID>,
    pub chunks: Seq<ChunkRef>,
}

impl View for TreeNode {
    type V = TreeNodeView;

    open spec fn view(&self) -> TreeNodeView {
        TreeNodeView {
            name: self.name@,
            node_type: self.node_type,
            mode: self.mode,
            uid: self.uid,
            gid: self.gid,
            size: self.size,
            mtime: self.mtime,
            subtree_id: self.subtree_id,
            chunks: self.chunks@,
        }
    }
}

impl Clone for TreeNode {
    fn clone(&self) -> (copy: Self)
        ensures
            copy@ == self@,
    {
        TreeNode {
            name: self.name.clone(),
            node_type: self.node_type,
            mode: self.mode,
            uid: self.uid,
            gid: self.gid,
            size: self.size,
            mtime: self.mtime,
            subtree_id: self.subtree_id,
            chunks: self.chunks.clone(),
        }
    }
}

impl TreeNode {
    pub fn is_file(&self) -> (r: bool)
        ensures
            r == (self.node_type == NodeType::File),
    {
        self.node_type == NodeType::File
    }

    pub fn is_dir(&self) -> (r: bool)
        ensures
            r == (self.node_type == NodeType::Directory),
    {
        self.node_type == NodeType::Directory
    }

    pub fn is_symlink(&self) -> (r: bool)
        ensures
            r == (self.node_type == NodeType::Symlink),
    {
        self.node_type == NodeType::Symlink
    }
}

} // verus!
