use ghostsnap::chunker::Chunker;
use ghostsnap::commit::{commit_actions, pack_actions, CommitSession, StoreAction};
use ghostsnap::pack::PackFile;
use ghostsnap::repository::{BlobWrite, Repository};
use ghostsnap::types::ChunkID;

fn noise(len: usize, seed: u64) -> Vec<u8> {
    let mut state = seed;
    let mut out = Vec::with_capacity(len);
    for _ in 0..len {
        state = state.wrapping_mul(6364136223846793005).wrapping_add(1442695040888963407);
        out.push((state >> 33) as u8);
    }
    out
}

#[test]
fn an_empty_file_has_no_chunks() {
    let mut session = CommitSession::new(1 << 20);
    let chunks = Chunker::new(1024).chunk_data(&[]);
    let staged = session.stage_file(&chunks, &vec![]);
    assert!(staged.failure.is_none());
    assert!(staged.refs.is_empty());
    assert!(staged.finished.is_empty());
    assert!(session.finish().is_none());
}

#[test]
fn identical_chunks_of_a_file_are_staged_once() {
    let data = vec![0u8; 10_000];
    let chunks = Chunker::new(1024).chunk_data(&data);
    assert_eq!(chunks.len(), 3);
    let mut session = CommitSession::new(1 << 20);
    let staged = session.stage_file(&chunks, &vec![false; 3]);
    assert!(staged.failure.is_none());
    assert_eq!(staged.refs.len(), 3);
    assert_eq!(staged.refs[0].id, staged.refs[1].id);
    assert_eq!(staged.refs[0].length, 4096);
    assert_eq!(staged.refs[2].length, 1808);
    assert_eq!(staged.refs[0].offset, 0);
    let pack = session.finish().unwrap();
    assert_eq!(pack.chunks.len(), 2);
    assert_eq!(pack.get_chunk(&staged.refs[0].id).unwrap(), vec![0u8; 4096]);
    assert!(session.has_staged(&staged.refs[0].id));
    assert!(!session.has_staged(&ChunkID::from_data(b"x")));
}

#[test]
fn a_file_committed_twice_costs_nothing_the_second_time() {
    let data = noise(50_000, 5);
    let chunks = Chunker::new(1024).chunk_data(&data);
    let mut session = CommitSession::new(16 * 1024);
    let first = session.stage_file(&chunks, &vec![false; chunks.len()]);
    assert!(first.failure.is_none());
    assert!(!first.finished.is_empty());
    let entries: usize = first.finished.iter().map(|p| p.chunks.len()).sum();
    let second = session.stage_file(&chunks, &vec![false; chunks.len()]);
    assert!(second.failure.is_none());
    assert!(second.finished.is_empty());
    assert_eq!(second.refs.len(), chunks.len());
    for (a, b) in first.refs.iter().zip(second.refs.iter()) {
        assert_eq!((a.id, a.length), (b.id, b.length));
    }
    let last = session.finish().unwrap();
    assert_eq!(entries + last.chunks.len(), chunks.len());
    assert!(chunks.len() <= 1 + data.len() / 256);
}

#[test]
fn chunks_that_the_repository_has_are_left_out() {
    let data = noise(20_000, 8);
    let chunks = Chunker::new(1024).chunk_data(&data);
    let mut session = CommitSession::new(1 << 20);
    let staged = session.stage_file(&chunks, &vec![true; chunks.len()]);
    assert!(staged.failure.is_none());
    assert_eq!(staged.refs.len(), chunks.len());
    assert!(staged.finished.is_empty());
    assert!(session.finish().is_none());

    let mut stored = vec![true; chunks.len()];
    stored[1] = false;
    let staged = session.stage_file(&chunks, &stored);
    assert!(staged.failure.is_none());
    let pack = session.finish().unwrap();
    assert_eq!(pack.chunk_ids(), vec![chunks[1].id()]);
}

#[test]
fn full_packs_are_handed_back_while_staging() {
    let mut session = CommitSession::new(1);
    let a = session.stage_chunk(ChunkID::from_data(b"a"), b"a", false).unwrap();
    assert!(a.is_none());
    let b = session.stage_chunk(ChunkID::from_data(b"b"), b"b", false).unwrap().unwrap();
    assert_eq!(b.chunk_ids(), vec![ChunkID::from_data(b"a")]);
    assert!(session.stage_chunk(ChunkID::from_data(b"a"), b"a", false).unwrap().is_none());
    assert!(session.stage_chunk(ChunkID::from_data(b"c"), b"c", true).unwrap().is_none());
    let last = session.finish().unwrap();
    assert_eq!(last.chunk_ids(), vec![ChunkID::from_data(b"b")]);
}

#[test]
fn a_pack_goes_out_before_its_index_entries_and_the_snapshot_last() {
    let repository = Repository::init("/r", "pw", false).unwrap().repository;
    let mut pack = PackFile::new(String::from("pack-1"));
    pack.add_chunk(ChunkID::from_data(b"one"), b"one").unwrap();
    pack.add_chunk(ChunkID::from_data(b"two"), b"two").unwrap();
    let actions = pack_actions(&repository, &pack).unwrap();
    assert_eq!(actions.len(), 3);
    match &actions[0] {
        StoreAction::PutPack(write) => {
            assert_eq!(write.path, "data/pack-1.pack");
            let read = repository
                .load_pack("pack-1", ghostsnap::repository::Fetched::Found(write.data.clone()))
                .unwrap();
            assert_eq!(read.get_chunk(&ChunkID::from_data(b"two")).unwrap(), b"two");
        }
        other => panic!("{:?}", other),
    }
    for (action, entry) in actions[1..].iter().zip(pack.chunks.iter()) {
        match action {
            StoreAction::PutIndex { path, location } => {
                assert_eq!(path, &format!("index/{}", entry.id.to_hex()));
                assert_eq!(location.pack_id, "pack-1");
                assert_eq!((location.offset, location.length), (entry.offset, entry.length));
            }
            other => panic!("{:?}", other),
        }
    }
    let tree = BlobWrite { path: String::from("data/t"), data: vec![1] };
    let snapshot = BlobWrite { path: String::from("snapshots/s"), data: vec![2] };
    let all = commit_actions(actions, tree, snapshot);
    assert_eq!(all.len(), 5);
    assert!(matches!(&all[0], StoreAction::PutPack(_)));
    assert!(matches!(&all[3], StoreAction::PutTree(w) if w.path == "data/t"));
    assert!(matches!(&all[4], StoreAction::PutSnapshot(w) if w.path == "snapshots/s"));
    let bare = commit_actions(
        Vec::new(),
        BlobWrite { path: String::from("data/t"), data: vec![] },
        BlobWrite { path: String::from("snapshots/s"), data: vec![] },
    );
    assert_eq!(bare.len(), 2);
}
