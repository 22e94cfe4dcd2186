use ghostsnap::chunker::Chunker;
use ghostsnap::commit::{pack_actions, CommitSession, StoreAction};
use ghostsnap::error::Error;
use ghostsnap::pack::PackFile;
use ghostsnap::repository::{Fetched, Repository};
use ghostsnap::restore::{nodes_to_restore, restore_file};
use ghostsnap::types::{ChunkID, ChunkRef, NodeType, TreeNode};
use std::collections::HashMap;

fn noise(len: usize, seed: u64) -> Vec<u8> {
    let mut state = seed;
    let mut out = Vec::with_capacity(len);
    for _ in 0..len {
        state = state.wrapping_mul(6364136223846793005).wrapping_add(1442695040888963407);
        out.push((state >> 33) as u8);
    }
    out
}

struct Store {
    blobs: HashMap<String, Vec<u8>>,
    index: HashMap<String, (String, u64, u32)>,
    order: Vec<String>,
}

impl Store {
    fn new() -> Store {
        Store { blobs: HashMap::new(), index: HashMap::new(), order: Vec::new() }
    }

    fn carry_out(&mut self, actions: Vec<StoreAction>) {
        for action in actions {
            match action {
                StoreAction::PutPack(w) | StoreAction::PutTree(w) | StoreAction::PutSnapshot(w) => {
                    self.order.push(w.path.clone());
                    self.blobs.insert(w.path, w.data);
                }
                StoreAction::PutIndex { path, location } => {
                    assert!(self.blobs.contains_key(&format!("data/{}.pack", location.pack_id)));
                    self.order.push(path.clone());
                    self.index.insert(path, (location.pack_id, location.offset, location.length));
                }
            }
        }
    }

    fn has(&self, id: &ChunkID) -> bool {
        self.index.contains_key(&format!("index/{}", id.to_hex()))
    }
}

fn backup(repository: &Repository, store: &mut Store, data: &[u8], cap: u64) -> Vec<ChunkRef> {
    let chunks = Chunker::new(1024).chunk_data(data);
    let stored: Vec<bool> = chunks.iter().map(|c| store.has(&c.id())).collect();
    let mut session = CommitSession::new(cap);
    let staged = session.stage_file(&chunks, &stored);
    assert!(staged.failure.is_none());
    for pack in staged.finished.iter().chain(session.finish().iter()) {
        store.carry_out(pack_actions(repository, pack).unwrap());
    }
    staged.refs
}

fn restore(repository: &Repository, store: &Store, refs: &Vec<ChunkRef>) -> Result<Vec<u8>, Error> {
    let mut packs: Vec<PackFile> = Vec::new();
    let mut names: Vec<String> = Vec::new();
    let mut pack_of = Vec::new();
    for r in refs {
        let (pack_id, _, _) = store.index[&format!("index/{}", r.id.to_hex())].clone();
        let at = match names.iter().position(|n| *n == pack_id) {
            Some(at) => at,
            None => {
                let blob = store.blobs[&format!("data/{}.pack", pack_id)].clone();
                packs.push(repository.load_pack(&pack_id, Fetched::Found(blob))?);
                names.push(pack_id);
                names.len() - 1
            }
        };
        pack_of.push(at);
    }
    restore_file(refs, &pack_of, &packs)
}

#[test]
fn restoring_gives_the_file_back() {
    let repository = Repository::init("/r", "pw", false).unwrap().repository;
    let mut store = Store::new();
    for (len, seed) in [(0usize, 1u64), (1, 2), (5_000, 3), (120_000, 4)] {
        let data = noise(len, seed);
        let refs = backup(&repository, &mut store, &data, 20_000);
        assert_eq!(restore(&repository, &store, &refs).unwrap(), data);
    }
    let zeros = vec![0u8; 10_000];
    let refs = backup(&repository, &mut store, &zeros, 20_000);
    assert_eq!(refs.len(), 3);
    assert_eq!(restore(&repository, &store, &refs).unwrap(), zeros);
}

#[test]
fn a_second_backup_of_the_same_file_stores_nothing() {
    let repository = Repository::init("/r", "pw", false).unwrap().repository;
    let mut store = Store::new();
    let data = noise(100_000, 9);
    let first = backup(&repository, &mut store, &data, 30_000);
    let blobs = store.blobs.len();
    let entries = store.index.len();
    assert!(blobs >= 2);
    let second = backup(&repository, &mut store, &data, 30_000);
    assert_eq!(store.blobs.len(), blobs);
    assert_eq!(store.index.len(), entries);
    assert_eq!(restore(&repository, &store, &first).unwrap(), data);
    assert_eq!(restore(&repository, &store, &second).unwrap(), data);
}

#[test]
fn a_flipped_byte_in_a_pack_fails_the_restore_of_what_lies_in_it() {
    let repository = Repository::init("/r", "pw", false).unwrap().repository;
    let mut store = Store::new();
    let first = noise(30_000, 1);
    let second = noise(30_000, 2);
    let first_refs = backup(&repository, &mut store, &first, 1 << 20);
    let second_refs = backup(&repository, &mut store, &second, 1 << 20);
    let (pack_id, _, _) = store.index[&format!("index/{}", first_refs[0].id.to_hex())].clone();
    let path = format!("data/{}.pack", pack_id);
    let middle = store.blobs[&path].len() / 2;
    store.blobs.get_mut(&path).unwrap()[middle] ^= 0xff;
    assert_eq!(
        restore(&repository, &store, &first_refs).err(),
        Some(Error::CorruptedPack { id: pack_id })
    );
    assert_eq!(restore(&repository, &store, &second_refs).unwrap(), second);
}

#[test]
fn restore_reports_what_cannot_be_read() {
    let mut pack = PackFile::new(String::from("p"));
    let a = ChunkID::from_data(b"aaa");
    let b = ChunkID::from_data(b"bbb");
    pack.add_chunk(a, b"aaa").unwrap();
    let packs = vec![pack];
    let refs = vec![ChunkRef { id: a, offset: 0, length: 3 }, ChunkRef { id: b, offset: 0, length: 3 }];
    assert_eq!(
        restore_file(&refs, &vec![0, 0], &packs).err(),
        Some(Error::ChunkNotFound { id: b.to_hex() })
    );
    assert_eq!(
        restore_file(&refs, &vec![0], &packs).err(),
        Some(Error::ChunkNotFound { id: b.to_hex() })
    );
    assert_eq!(
        restore_file(&refs, &vec![1, 0], &packs).err(),
        Some(Error::ChunkNotFound { id: a.to_hex() })
    );
    assert_eq!(restore_file(&refs[..1].to_vec(), &vec![0], &packs).unwrap(), b"aaa");
    // the first chunk that cannot be read decides
    let mut garbled = PackFile::new(String::from("g"));
    garbled.add_compressed(b, 3, vec![1, 2, 3]).unwrap();
    let mut corrupt = PackFile::new(String::from("c"));
    corrupt.add_chunk(b, b"bbb").unwrap();
    corrupt.chunks[0].length += 100;
    let three = vec![
        {
            let mut p = PackFile::new(String::from("p"));
            p.add_chunk(a, b"aaa").unwrap();
            p
        },
        garbled,
        corrupt,
    ];
    assert!(matches!(restore_file(&refs, &vec![0, 1], &three), Err(Error::Other(_))));
    assert_eq!(
        restore_file(&refs, &vec![0, 2], &three).err(),
        Some(Error::CorruptedPack { id: String::from("c") })
    );
    assert_eq!(
        restore_file(&vec![refs[1], refs[0]], &vec![2, 9], &three).err(),
        Some(Error::CorruptedPack { id: String::from("c") })
    );
    let twice = vec![refs[0], refs[0]];
    assert_eq!(restore_file(&twice, &vec![0, 0], &packs).unwrap(), b"aaaaaa");
    assert_eq!(restore_file(&Vec::new(), &Vec::new(), &packs).unwrap(), Vec::<u8>::new());
}

#[test]
fn nodes_are_chosen_by_the_paths_asked_for() {
    let node = |name: &str| TreeNode {
        name: String::from(name),
        node_type: NodeType::File,
        mode: 0,
        uid: 0,
        gid: 0,
        size: 0,
        mtime: 0,
        subtree_id: None,
        chunks: Vec::new(),
    };
    let nodes = vec![node("docs/a.txt"), node("src/main.rs"), node("docs/b.txt"), node("README")];
    assert_eq!(nodes_to_restore(&nodes, &Vec::new()), vec![0, 1, 2, 3]);
    assert_eq!(nodes_to_restore(&nodes, &vec![String::from("docs/")]), vec![0, 2]);
    assert_eq!(
        nodes_to_restore(&nodes, &vec![String::from("main"), String::from("READ")]),
        vec![1, 3]
    );
    assert_eq!(nodes_to_restore(&nodes, &vec![String::from("nothing")]), Vec::<usize>::new());
    assert_eq!(nodes_to_restore(&nodes, &vec![String::from("")]), vec![0, 1, 2, 3]);
    assert_eq!(nodes_to_restore(&Vec::new(), &vec![String::from("a")]), Vec::<usize>::new());
}
