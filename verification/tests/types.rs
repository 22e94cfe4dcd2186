use ghostsnap::error::HexError;
use ghostsnap::types::{ChunkID, KdfParams, NodeType, RepoConfig, TreeNode};
use std::str::FromStr;

const EMPTY_DIGEST: &str = "af1349b9f5f9a1a6a0404dea36dcc9499bcb25c9adc112b7cc9a93cae41f3262";

#[test]
fn digest_of_empty_input_is_the_known_one() {
    let id = ChunkID::from_data(b"");
    assert_eq!(id.to_hex(), EMPTY_DIGEST);
    assert_eq!(id.short_string(), "af1349b9");
}

#[test]
fn hex_is_lower_case_and_high_half_first() {
    let mut bytes = [0u8; 32];
    bytes[0] = 0x0f;
    bytes[1] = 0xa0;
    bytes[31] = 0xff;
    let id = ChunkID::new(bytes);
    let hex = id.to_hex();
    assert_eq!(hex.len(), 64);
    assert_eq!(&hex[0..4], "0fa0");
    assert_eq!(&hex[62..64], "ff");
    assert_eq!(id.as_bytes(), &bytes);
}

#[test]
fn hex_round_trip_in_either_case() {
    let id = ChunkID::from_data(b"some chunk");
    let lower = id.to_hex();
    assert_eq!(ChunkID::from_hex(&lower), Ok(id));
    assert_eq!(ChunkID::from_hex(&lower.to_uppercase()), Ok(id));
    assert_eq!(ChunkID::from_str(&lower), Ok(id));
}

#[test]
fn from_hex_reports_each_error() {
    assert_eq!(ChunkID::from_hex("abc"), Err(HexError::OddLength));
    assert_eq!(ChunkID::from_hex("abcd"), Err(HexError::InvalidStringLength));
    assert_eq!(ChunkID::from_hex(""), Err(HexError::InvalidStringLength));
    let mut bad = String::from(EMPTY_DIGEST);
    bad.replace_range(5..6, "g");
    assert_eq!(ChunkID::from_hex(&bad), Err(HexError::InvalidHexCharacter { c: 'g', index: 5 }));
    let mut two = String::from(EMPTY_DIGEST);
    two.replace_range(9..10, "x");
    two.replace_range(3..4, "z");
    assert_eq!(ChunkID::from_hex(&two), Err(HexError::InvalidHexCharacter { c: 'z', index: 3 }));
}

#[test]
fn identifiers_follow_content() {
    assert_eq!(ChunkID::from_data(b"abc"), ChunkID::from_data(b"abc"));
    assert_ne!(ChunkID::from_data(b"abc"), ChunkID::from_data(b"abd"));
    assert_eq!(ChunkID::from_slice(&[1u8; 31]), None);
    assert_eq!(ChunkID::from_slice(&[1u8; 32]), Some(ChunkID::new([1u8; 32])));
}

#[test]
fn default_parameters() {
    let params = KdfParams::default();
    assert_eq!(params.algorithm, "argon2id");
    assert_eq!(params.iterations, 1);
    assert_eq!(params.memory, 65536);
    assert_eq!(params.parallelism, 4);
    assert_eq!(params.salt.len(), 32);
    let other = KdfParams::default();
    assert_ne!(params.salt, other.salt);
    let copy = params.clone();
    assert_eq!(copy.salt, params.salt);

    let config = RepoConfig::default();
    assert_eq!(config.version, 1);
    assert_eq!(config.chunker_polynomial, 0x3DA3358B4DC173);
    assert_eq!(config.id.len(), 36);
    assert_ne!(config.id, RepoConfig::default().id);
}

#[test]
fn node_kinds() {
    let mut node = TreeNode {
        name: String::from("a.txt"),
        node_type: NodeType::File,
        mode: 0o644,
        uid: 0,
        gid: 0,
        size: 0,
        mtime: 0,
        subtree_id: None,
        chunks: Vec::new(),
    };
    assert!(node.is_file() && !node.is_dir() && !node.is_symlink());
    node.node_type = NodeType::Directory;
    assert!(!node.is_file() && node.is_dir() && !node.is_symlink());
    node.node_type = NodeType::Symlink;
    assert!(!node.is_file() && !node.is_dir() && node.is_symlink());
}

#[test]
fn set_of_identifiers() {
    let mut set = ghostsnap::idset::ChunkSet::new();
    let a = ChunkID::from_data(b"a");
    let b = ChunkID::from_data(b"b");
    assert!(!set.contains(&a));
    set.insert(a);
    set.insert(a);
    assert!(set.contains(&a) && !set.contains(&b));
    // two identifiers in one bucket
    let mut first = [9u8; 32];
    let mut second = [9u8; 32];
    first[31] = 1;
    second[31] = 2;
    set.insert(ChunkID::new(first));
    assert!(set.contains(&ChunkID::new(first)) && !set.contains(&ChunkID::new(second)));
    set.insert(ChunkID::new(second));
    assert!(set.contains(&ChunkID::new(second)) && set.contains(&ChunkID::new(first)));
    for i in 0..1000u32 {
        set.insert(ChunkID::from_data(&i.to_le_bytes()));
    }
    for i in 0..1000u32 {
        assert!(set.contains(&ChunkID::from_data(&i.to_le_bytes())));
    }
    assert!(!set.contains(&ChunkID::from_data(&1000u32.to_le_bytes())));
}

#[test]
fn from_str_reads_as_from_hex_does() {
    for text in ["", "abc", "abcd", "zz", EMPTY_DIGEST, "AF1349B9F5F9A1A6A0404DEA36DCC9499BCB25C9ADC112B7CC9A93CAE41F3262"] {
        assert_eq!(ChunkID::from_str(text), ChunkID::from_hex(text));
        assert_eq!(text.parse::<ChunkID>(), ChunkID::from_hex(text));
    }
    assert_eq!(ChunkID::from_str("abc"), Err(HexError::OddLength));
    assert_eq!(ChunkID::from_str("zz"), Err(HexError::InvalidHexCharacter { c: 'z', index: 0 }));
    assert_eq!(ChunkID::from_str(EMPTY_DIGEST), Ok(ChunkID::from_data(b"")));
}
