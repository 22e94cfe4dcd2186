use ghostsnap::error::Error;
use ghostsnap::pack::PackFile;
use ghostsnap::repository::{
    config_path, index_path, key_path, layout_directories, pack_path, seal_key, snapshot_path,
    tree_path, unseal_key, Fetched, KeyFile, Repository,
};
use ghostsnap::types::{ChunkID, RepoConfig};

fn fresh(password: &str) -> (Repository, Vec<KeyFile>, RepoConfig) {
    let new = Repository::init("/r", password, false).unwrap();
    let config = new.repository.config().clone();
    (new.repository, vec![new.key_file], config)
}

#[test]
fn init_then_open_with_the_same_password() {
    let new = Repository::init("/r", "pw", false).unwrap();
    assert_eq!(new.repository.path(), "/r");
    assert_eq!(new.key_id.len(), 36);
    assert_eq!(new.repository.config().version, 1);
    assert_eq!(new.key_file.kdf_params.salt, new.repository.config().kdf_params.salt);
    assert_eq!(new.key_file.kdf_params.salt.len(), 32);
    assert_eq!(new.key_file.encrypted_key.len(), 32 + 28);
    let data_key = new.repository.encryptor().unwrap().key().to_vec();
    assert_eq!(data_key.len(), 32);

    let config = new.repository.config().clone();
    let files = vec![new.key_file];
    let opened = Repository::open("/r", "pw", true, Ok(config.clone()), &files).unwrap();
    assert_eq!(opened.encryptor().unwrap().key(), &data_key[..]);
    assert_eq!(opened.path(), "/r");
    assert_eq!(opened.config().id, config.id);

    // what one session seals, the next one opens
    let sealed = new.repository.encryptor().unwrap().encrypt(b"object").unwrap();
    assert_eq!(opened.encryptor().unwrap().decrypt(&sealed).unwrap(), b"object");

    assert_eq!(
        Repository::open("/r", "wrong", true, Ok(config.clone()), &files).err(),
        Some(Error::InvalidPassword)
    );
    assert_eq!(
        Repository::open("/missing", "pw", false, Ok(config.clone()), &files).err(),
        Some(Error::RepositoryNotFound { path: String::from("/missing") })
    );
    assert_eq!(
        Repository::init("/r", "pw", true).err(),
        Some(Error::RepositoryExists { path: String::from("/r") })
    );
}

#[test]
fn open_checks_the_configuration_first() {
    let (_, files, config) = fresh("pw");
    let mut newer = config.clone();
    newer.version = 2;
    assert_eq!(
        Repository::open("/r", "pw", true, Ok(newer), &files).err(),
        Some(Error::InvalidFormatVersion { version: 2 })
    );
    assert_eq!(
        Repository::open("/r", "pw", true, Err(String::from("expected value")), &files).err(),
        Some(Error::Serialization(String::from("expected value")))
    );
    assert_eq!(
        Repository::open("/r", "pw", true, Ok(config), &Vec::new()).err(),
        Some(Error::InvalidPassword)
    );
}

#[test]
fn the_first_key_file_that_the_password_unseals_gives_the_key() {
    let (first, mut first_files, config) = fresh("one");
    let (second, mut second_files, _) = fresh("two");
    let mut files = Vec::new();
    files.append(&mut first_files);
    files.append(&mut second_files);
    let garbage = KeyFile { encrypted_key: vec![1, 2, 3], kdf_params: config.kdf_params.clone() };
    files.insert(0, garbage);
    let short_salt = KeyFile {
        encrypted_key: files[1].encrypted_key.clone(),
        kdf_params: {
            let mut p = config.kdf_params.clone();
            p.salt = vec![1];
            p
        },
    };
    files.insert(0, short_salt);
    let with_one = Repository::open("/r", "one", true, Ok(config.clone()), &files).unwrap();
    assert_eq!(with_one.encryptor().unwrap().key(), first.encryptor().unwrap().key());
    let with_two = Repository::open("/r", "two", true, Ok(config.clone()), &files).unwrap();
    assert_eq!(with_two.encryptor().unwrap().key(), second.encryptor().unwrap().key());
    assert!(unseal_key("one", &files[0]).is_none());
    assert!(unseal_key("one", &files[1]).is_none());
    assert!(unseal_key("one", &files[2]).is_some());
    assert!(unseal_key("one", &files[3]).is_none());
}

#[test]
fn rotating_the_password_keeps_the_data_key() {
    let (repository, files, config) = fresh("old");
    let sealed = repository.encryptor().unwrap().encrypt(b"kept").unwrap();
    let rotated = repository.rotate_password("new").unwrap();
    assert_ne!(rotated.kdf_params.salt, files[0].kdf_params.salt);
    assert_ne!(rotated.encrypted_key, files[0].encrypted_key);
    let files = vec![rotated];
    let opened = Repository::open("/r", "new", true, Ok(config.clone()), &files).unwrap();
    assert_eq!(opened.encryptor().unwrap().key(), repository.encryptor().unwrap().key());
    assert_eq!(opened.encryptor().unwrap().decrypt(&sealed).unwrap(), b"kept");
    assert_eq!(
        Repository::open("/r", "old", true, Ok(config), &files).err(),
        Some(Error::InvalidPassword)
    );
}

#[test]
fn where_objects_live() {
    let id = ChunkID::from_data(b"");
    assert_eq!(config_path(), "config");
    assert_eq!(key_path("k1"), "keys/k1");
    assert_eq!(snapshot_path("snap-a"), "snapshots/snap-a");
    assert_eq!(pack_path("pack-1"), "data/pack-1.pack");
    assert_eq!(
        tree_path(&id),
        "data/af1349b9f5f9a1a6a0404dea36dcc9499bcb25c9adc112b7cc9a93cae41f3262"
    );
    assert_eq!(
        index_path(&id),
        "index/af1349b9f5f9a1a6a0404dea36dcc9499bcb25c9adc112b7cc9a93cae41f3262"
    );
    assert_eq!(layout_directories(), vec!["data", "index", "snapshots", "keys", "locks"]);
    let (path, location) = Repository::save_chunk_location(&id, "pack-1", 7, 9);
    assert_eq!(path, index_path(&id));
    assert_eq!((location.pack_id.as_str(), location.offset, location.length), ("pack-1", 7, 9));
}

#[test]
fn snapshots_are_sealed_and_opened() {
    let (repository, _, _) = fresh("pw");
    let json = br#"{"id":"snap-a"}"#.to_vec();
    let write = repository.save_snapshot("snap-a", Ok(json.clone())).unwrap();
    assert_eq!(write.path, "snapshots/snap-a");
    assert_eq!(write.data.len(), json.len() + 28);
    assert_eq!(repository.load_snapshot("snap-a", Fetched::Found(write.data.clone())).unwrap(), json);
    assert_eq!(
        repository.load_snapshot("snap-b", Fetched::Missing).err(),
        Some(Error::SnapshotNotFound { id: String::from("snap-b") })
    );
    assert_eq!(
        repository.load_snapshot("snap-a", Fetched::Failed(String::from("timeout"))).err(),
        Some(Error::Io(String::from("timeout")))
    );
    let mut bad = write.data.clone();
    bad[0] ^= 1;
    assert!(matches!(repository.load_snapshot("snap-a", Fetched::Found(bad)), Err(Error::Encryption(_))));
    assert!(matches!(repository.save_snapshot("snap-a", Err(String::from("no"))), Err(Error::Other(_))));
}

#[test]
fn a_tree_is_named_by_its_plaintext() {
    let (repository, _, _) = fresh("pw");
    let json = br#"{"nodes":[]}"#.to_vec();
    let (id, write) = repository.save_tree(Ok(json.clone())).unwrap();
    let (again, second) = repository.save_tree(Ok(json.clone())).unwrap();
    assert_eq!(id, ChunkID::from_data(&json));
    assert_eq!(id, again);
    assert_ne!(write.data, second.data);
    assert_eq!(write.path, format!("data/{}", id.to_hex()));
    assert_eq!(repository.load_tree(&id, Fetched::Found(write.data)).unwrap(), json);
    assert_eq!(
        repository.load_tree(&id, Fetched::Missing).err(),
        Some(Error::ChunkNotFound { id: id.to_hex() })
    );
    assert_eq!(
        repository.load_tree(&id, Fetched::Failed(String::from("boom"))).err(),
        Some(Error::Io(String::from("boom")))
    );
    assert!(matches!(repository.save_tree(Err(String::from("no"))), Err(Error::Other(_))));
}

#[test]
fn packs_are_stored_and_loaded() {
    let (repository, _, _) = fresh("pw");
    let mut pack = PackFile::new(String::from("pack-7"));
    let id = ChunkID::from_data(b"chunk");
    pack.add_chunk(id, b"chunk").unwrap();
    let write = repository.save_pack(&pack).unwrap();
    assert_eq!(write.path, "data/pack-7.pack");
    let loaded = repository.load_pack("pack-7", Fetched::Found(write.data.clone())).unwrap();
    assert_eq!(Repository::load_chunk(&id, &loaded).unwrap(), b"chunk");
    let other = ChunkID::from_data(b"other");
    assert_eq!(
        Repository::load_chunk(&other, &loaded).err(),
        Some(Error::ChunkNotFound { id: other.to_hex() })
    );
    let mut bad = write.data;
    let last = bad.len() - 1;
    bad[last] ^= 0x80;
    assert_eq!(
        repository.load_pack("pack-7", Fetched::Found(bad)).err(),
        Some(Error::CorruptedPack { id: String::from("pack-7") })
    );
    assert!(matches!(repository.load_pack("pack-7", Fetched::Missing), Err(Error::Io(_))));
    assert_eq!(
        repository.load_pack("pack-7", Fetched::Failed(String::from("503"))).err(),
        Some(Error::Io(String::from("503")))
    );
}

#[test]
fn a_chunk_without_an_index_entry_is_not_found() {
    let id = ChunkID::from_data(b"chunk");
    assert_eq!(
        Repository::load_chunk_location(&id, Fetched::Missing),
        Err(Error::ChunkNotFound { id: id.to_hex() })
    );
    assert_eq!(
        Repository::load_chunk_location(&id, Fetched::Failed(String::from("reset"))),
        Err(Error::Io(String::from("reset")))
    );
    assert_eq!(Repository::load_chunk_location(&id, Fetched::Found(vec![1, 2, 3])), Ok(vec![1, 2, 3]));
}

#[test]
fn snapshot_identifiers_of_a_listing() {
    let listing = vec![
        String::from("snapshots/one"),
        String::from("data/x"),
        String::from("snapshots/"),
        String::from("snapshots/twö"),
        String::from("snapshot/three"),
    ];
    assert_eq!(Repository::list_snapshots(&listing), vec!["one", "", "twö"]);
    assert!(Repository::list_snapshots(&Vec::new()).is_empty());
}

#[test]
fn a_sealed_key_is_unsealed_by_its_password_only() {
    let mut params = RepoConfig::default().kdf_params;
    params.memory = 64;
    params.parallelism = 1;
    let key = [6u8; 32];
    let (master, file) = seal_key("pw", params.clone(), &key).unwrap();
    assert_eq!(master.as_bytes().len(), 32);
    assert_eq!(file.kdf_params.salt, params.salt);
    assert_eq!(file.encrypted_key.len(), 60);
    assert_eq!(unseal_key("pw", &file).unwrap().key(), &key);
    assert!(unseal_key("pW", &file).is_none());
    let mut refused = params.clone();
    refused.memory = 1;
    assert!(matches!(seal_key("pw", refused, &key), Err(Error::Encryption(_))));
}
