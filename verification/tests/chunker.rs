use ghostsnap::chunker::{Chunk, Chunker};
use ghostsnap::error::Error;
use ghostsnap::types::ChunkID;

fn noise(len: usize, seed: u64) -> Vec<u8> {
    let mut state = seed;
    let mut out = Vec::with_capacity(len);
    for _ in 0..len {
        state = state.wrapping_mul(6364136223846793005).wrapping_add(1442695040888963407);
        out.push((state >> 33) as u8);
    }
    out
}

fn check_partition(chunks: &[Chunk], data: &[u8], min: usize, max: usize) {
    let mut offset = 0;
    let mut joined = Vec::new();
    for (i, chunk) in chunks.iter().enumerate() {
        assert_eq!(chunk.offset, offset);
        assert_eq!(chunk.length, chunk.data.len());
        assert!(chunk.length > 0);
        assert!(chunk.length <= max);
        if i + 1 < chunks.len() {
            assert!(chunk.length >= 2 * (min / 2));
        }
        assert_eq!(&chunk.data[..], &data[offset..offset + chunk.length]);
        assert_eq!(chunk.data(), &chunk.data[..]);
        offset += chunk.length;
        joined.extend_from_slice(&chunk.data);
    }
    assert_eq!(joined, data);
}

#[test]
fn test_chunking() {
    let chunker = Chunker::new(1024);
    let data = vec![0u8; 10000];
    let chunks = chunker.chunk_data(&data);

    assert!(!chunks.is_empty());

    let total_size: usize = chunks.iter().map(|c| c.length).sum();
    assert_eq!(total_size, data.len());
}

#[test]
fn chunks_make_up_the_input_and_keep_the_bounds() {
    let chunker = Chunker::new(1024);
    for (len, seed) in [(0usize, 1u64), (1, 2), (255, 3), (256, 4), (257, 5), (5000, 6), (200_000, 7)] {
        let data = noise(len, seed);
        let chunks = chunker.chunk_data(&data);
        check_partition(&chunks, &data, 256, 4096);
        assert_eq!(chunks.is_empty(), len == 0);
    }
    let zeros = vec![0u8; 10000];
    let chunks = chunker.chunk_data(&zeros);
    check_partition(&chunks, &zeros, 256, 4096);
}

#[test]
fn chunking_is_deterministic_and_content_defined() {
    let chunker = Chunker::new(1024);
    let data = noise(100_000, 11);
    let first = chunker.chunk_data(&data);
    let second = chunker.chunk_data(&data);
    assert_eq!(first.len(), second.len());
    assert!(first.len() > 10);
    for (a, b) in first.iter().zip(second.iter()) {
        assert_eq!((a.offset, a.length, a.id()), (b.offset, b.length, b.id()));
    }
    let lengths: Vec<usize> = first.iter().map(|c| c.length).collect();
    assert!(lengths.iter().any(|&l| l != lengths[0]));
}

#[test]
fn chunk_identifier_is_the_digest_of_its_bytes() {
    let chunk = Chunk { offset: 5, length: 3, data: vec![1, 2, 3] };
    assert_eq!(chunk.id(), ChunkID::from_data(&[1, 2, 3]));
    let copy = chunk.clone();
    assert_eq!((copy.offset, copy.length, copy.data), (5, 3, vec![1, 2, 3]));
}

#[test]
fn sizes_of_a_chunker() {
    assert!(Chunker::default().is_supported());
    assert!(Chunker::new(256).is_supported());
    assert!(Chunker::new(4 * 1024 * 1024).is_supported());
    assert!(!Chunker::new(255).is_supported());
    assert!(!Chunker::new(4 * 1024 * 1024 + 1).is_supported());
    assert!(!Chunker::new(0).is_supported());
}

#[test]
fn default_chunker_keeps_a_small_input_whole() {
    let data = noise(100_000, 3);
    let chunks = Chunker::default().chunk_data(&data);
    assert_eq!(chunks.len(), 1);
    assert_eq!(chunks[0].data, data);
}

#[test]
fn chunk_reader_passes_a_failed_read_on() {
    let chunker = Chunker::new(1024);
    let data = noise(3000, 9);
    let chunks = chunker.chunk_reader(Ok(data.clone())).unwrap();
    check_partition(&chunks, &data, 256, 4096);
    assert_eq!(
        chunker.chunk_reader(Err(String::from("disk on fire"))).err(),
        Some(Error::Io(String::from("disk on fire")))
    );
}

#[test]
fn odd_minimum_lets_a_cut_come_one_byte_early() {
    // With an average of 260 the minimum is 65, and the search may cut at 64.
    let chunker = Chunker::new(260);
    let data = vec![248u8; 400];
    let chunks = chunker.chunk_data(&data);
    check_partition(&chunks, &data, 65, 1040);
    assert_eq!(chunks[0].length, 64);
    // Seven chunks where the length over the average, rounded up, is two.
    assert_eq!(chunks.len(), 7);
    assert!(chunks.len() > (data.len() + 259) / 260);
    assert!((chunks.len() - 1) * 64 <= data.len());
}

#[test]
fn identical_runs_give_identical_chunks() {
    let chunks = Chunker::new(1024).chunk_data(&vec![0u8; 10000]);
    let lengths: Vec<usize> = chunks.iter().map(|c| c.length).collect();
    assert_eq!(lengths, vec![4096, 4096, 1808]);
    assert_eq!(chunks[0].id(), chunks[1].id());
    assert_ne!(chunks[0].id(), chunks[2].id());
}
