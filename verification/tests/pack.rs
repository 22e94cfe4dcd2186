use ghostsnap::codec::{
    decode_directory, decode_header, encode_directory, encode_header, PackHeader, PackedChunk,
};
use ghostsnap::crypto::Encryptor;
use ghostsnap::error::Error;
use ghostsnap::pack::{PackFile, PackManager};
use ghostsnap::types::ChunkID;

fn encryptor() -> Encryptor {
    Encryptor::new(&[42u8; 32]).unwrap()
}

fn sample_pack() -> PackFile {
    let mut pack = PackFile::new(String::from("pack-test"));
    pack.add_chunk(ChunkID::from_data(b"first chunk"), b"first chunk").unwrap();
    pack.add_chunk(ChunkID::from_data(&[0u8; 5000]), &[0u8; 5000]).unwrap();
    pack.add_chunk(ChunkID::from_data(b""), b"").unwrap();
    pack
}

#[test]
fn new_pack_is_empty() {
    let pack = PackFile::new(String::from("p"));
    assert_eq!(pack.header.pack_id, "p");
    assert_eq!(pack.header.chunk_count, 0);
    assert_eq!(pack.header.uncompressed_size, 0);
    assert_eq!(pack.header.compressed_size, 0);
    assert!(pack.chunks.is_empty() && pack.data.is_empty());
    assert_eq!(pack.size(), 0);
    assert!(pack.is_full(0));
    assert!(!pack.is_full(1));
    assert!(pack.chunk_ids().is_empty());
}

#[test]
fn chunks_read_back_and_the_directory_fits_the_data() {
    let pack = sample_pack();
    assert_eq!(pack.get_chunk(&ChunkID::from_data(b"first chunk")).unwrap(), b"first chunk");
    assert_eq!(pack.get_chunk(&ChunkID::from_data(&[0u8; 5000])).unwrap(), vec![0u8; 5000]);
    assert_eq!(pack.get_chunk(&ChunkID::from_data(b"")).unwrap(), Vec::<u8>::new());

    assert_eq!(pack.header.chunk_count, 3);
    assert_eq!(pack.header.uncompressed_size, 11 + 5000);
    assert_eq!(pack.header.compressed_size as usize, pack.data.len());
    let mut offset = 0u64;
    for (entry, plain) in pack.chunks.iter().zip([11u32, 5000, 0]) {
        assert_eq!(entry.offset, offset);
        assert_eq!(entry.uncompressed_length, plain);
        offset += entry.length as u64;
    }
    assert_eq!(offset as usize, pack.data.len());
    // zeros compress well, and the stored bytes are not the plaintext
    assert!(pack.chunks[1].length < 100);
    assert_ne!(&pack.data[..11], b"first chunk");
    assert_eq!(
        pack.chunk_ids(),
        vec![
            ChunkID::from_data(b"first chunk"),
            ChunkID::from_data(&[0u8; 5000]),
            ChunkID::from_data(b"")
        ]
    );
    assert!(pack.contains(&ChunkID::from_data(b"")));
    assert!(!pack.contains(&ChunkID::from_data(b"other")));
    assert!(pack.directory_fits());
}

#[test]
fn a_chunk_already_held_is_skipped() {
    let mut pack = sample_pack();
    let size = pack.size();
    pack.add_chunk(ChunkID::from_data(b"first chunk"), b"first chunk").unwrap();
    assert_eq!(pack.size(), size);
    assert_eq!(pack.chunks.len(), 3);
    assert_eq!(pack.header.chunk_count, 3);
    assert_eq!(pack.header.uncompressed_size, 5011);
    pack.add_compressed(ChunkID::from_data(b"first chunk"), 3, vec![1, 2, 3]).unwrap();
    assert_eq!(pack.size(), size);
}

#[test]
fn add_compressed_appends_the_bytes_given() {
    let mut pack = PackFile::new(String::from("p"));
    let id = ChunkID::new([7u8; 32]);
    pack.add_compressed(id, 100, vec![9, 8, 7]).unwrap();
    assert_eq!(pack.data, vec![9, 8, 7]);
    assert_eq!((pack.chunks[0].offset, pack.chunks[0].length, pack.chunks[0].uncompressed_length), (0, 3, 100));
    assert_eq!(pack.header.uncompressed_size, 100);
    // what was stored is no zlib stream
    assert!(matches!(pack.get_chunk(&id), Err(Error::Other(_))));
}

#[test]
fn reading_reports_missing_chunks_and_corrupt_directories() {
    let mut pack = sample_pack();
    let missing = ChunkID::from_data(b"not here");
    assert_eq!(pack.get_chunk(&missing), Err(Error::ChunkNotFound { id: missing.to_hex() }));

    pack.chunks[2].offset = pack.data.len() as u64 + 1;
    assert!(!pack.directory_fits());
    // every read fails, also that of a chunk whose own entry is sound
    assert_eq!(
        pack.get_chunk(&ChunkID::from_data(b"first chunk")),
        Err(Error::CorruptedPack { id: String::from("pack-test") })
    );
    assert_eq!(pack.get_chunk(&missing), Err(Error::CorruptedPack { id: String::from("pack-test") }));
    pack.chunks[2].offset = u64::MAX;
    pack.chunks[2].length = u32::MAX;
    assert!(matches!(pack.get_chunk(&missing), Err(Error::CorruptedPack { .. })));
}

#[test]
fn is_full_compares_the_data_region_with_the_cap() {
    let pack = sample_pack();
    let size = pack.size() as u64;
    assert!(pack.is_full(size));
    assert!(pack.is_full(size - 1));
    assert!(!pack.is_full(size + 1));
}

#[test]
fn stored_pack_opens_to_the_same_pack() {
    let pack = sample_pack();
    let key = encryptor();
    let stored = pack.write_to(&key).unwrap();
    let again = pack.write_to(&key).unwrap();
    assert_ne!(stored, again);

    let header_len = u32::from_le_bytes([stored[0], stored[1], stored[2], stored[3]]) as usize;
    let at = 4 + header_len;
    let dir_len = u32::from_le_bytes([stored[at], stored[at + 1], stored[at + 2], stored[at + 3]]) as usize;
    assert_eq!(dir_len, 8 + 3 * 48 + 28);
    assert_eq!(header_len, 36 + 9 + 28);
    assert_eq!(stored.len(), 8 + header_len + dir_len + pack.data.len() + 28);

    let read = PackFile::read_from("pack-test", &stored, &key).unwrap();
    assert_eq!(read.header.pack_id, pack.header.pack_id);
    assert_eq!(read.header.chunk_count, 3);
    assert_eq!(read.header.uncompressed_size, pack.header.uncompressed_size);
    assert_eq!(read.header.compressed_size, pack.header.compressed_size);
    assert_eq!(read.header.created_at, pack.header.created_at);
    assert_eq!(read.data, pack.data);
    assert_eq!(read.chunk_ids(), pack.chunk_ids());
    for id in pack.chunk_ids() {
        assert_eq!(read.get_chunk(&id), pack.get_chunk(&id));
    }
}

#[test]
fn any_flipped_byte_makes_the_pack_corrupt() {
    let pack = sample_pack();
    let key = encryptor();
    let stored = pack.write_to(&key).unwrap();
    for at in 0..stored.len() {
        let mut bad = stored.clone();
        bad[at] ^= 0x01;
        assert_eq!(
            PackFile::read_from("pack-a", &bad, &key).err(),
            Some(Error::CorruptedPack { id: String::from("pack-a") }),
            "byte {}", at
        );
    }
    for len in [0, 3, 4, 7, 40, stored.len() - 1] {
        assert!(matches!(
            PackFile::read_from("pack-a", &stored[..len], &key),
            Err(Error::CorruptedPack { .. })
        ));
    }
    let other = Encryptor::new(&[1u8; 32]).unwrap();
    assert!(matches!(PackFile::read_from("pack-a", &stored, &other), Err(Error::CorruptedPack { .. })));
}

#[test]
fn a_directory_that_points_outside_the_data_is_refused_on_reading() {
    let mut pack = sample_pack();
    pack.chunks[1].length += 1_000_000;
    let key = encryptor();
    let stored = pack.write_to(&key).unwrap();
    assert_eq!(
        PackFile::read_from("bad", &stored, &key).err(),
        Some(Error::CorruptedPack { id: String::from("bad") })
    );
}

#[test]
fn header_and_directory_have_one_binary_form() {
    let header = PackHeader {
        pack_id: String::from("päck"),
        chunk_count: 0x01020304,
        uncompressed_size: 0x0102030405060708,
        compressed_size: 7,
        created_at: -2,
    };
    let bytes = encode_header(&header);
    let mut expected = vec![5u8, 0, 0, 0, 0, 0, 0, 0];
    expected.extend_from_slice("päck".as_bytes());
    expected.extend_from_slice(&[4, 3, 2, 1]);
    expected.extend_from_slice(&[8, 7, 6, 5, 4, 3, 2, 1]);
    expected.extend_from_slice(&[7, 0, 0, 0, 0, 0, 0, 0]);
    expected.extend_from_slice(&[0xfe, 0xff, 0xff, 0xff, 0xff, 0xff, 0xff, 0xff]);
    assert_eq!(bytes, expected);
    let back = decode_header(&bytes).unwrap();
    assert_eq!(back.pack_id, "päck");
    assert_eq!(back.chunk_count, 0x01020304);
    assert_eq!(back.uncompressed_size, 0x0102030405060708);
    assert_eq!(back.compressed_size, 7);
    assert_eq!(back.created_at, -2);
    assert!(decode_header(&bytes[..bytes.len() - 1]).is_none());
    let mut longer = bytes.clone();
    longer.push(0);
    assert!(decode_header(&longer).is_none());
    let mut bad_text = bytes.clone();
    bad_text[9] = 0xff;
    assert!(decode_header(&bad_text).is_none());
    assert!(decode_header(&[]).is_none());

    let entries = vec![
        PackedChunk { id: ChunkID::new([1u8; 32]), offset: 0, length: 10, uncompressed_length: 20 },
        PackedChunk { id: ChunkID::new([2u8; 32]), offset: 10, length: 0x01020304, uncompressed_length: 1 },
    ];
    let bytes = encode_directory(&entries);
    assert_eq!(bytes.len(), 8 + 2 * 48);
    assert_eq!(&bytes[..8], &[2, 0, 0, 0, 0, 0, 0, 0]);
    assert_eq!(&bytes[8..40], &[1u8; 32]);
    assert_eq!(&bytes[56 + 40..56 + 44], &[4, 3, 2, 1]);
    let back = decode_directory(&bytes).unwrap();
    assert_eq!(back.len(), 2);
    assert_eq!(back[1].id, ChunkID::new([2u8; 32]));
    assert_eq!((back[1].offset, back[1].length, back[1].uncompressed_length), (10, 0x01020304, 1));
    assert_eq!((back[0].offset, back[0].length, back[0].uncompressed_length), (0, 10, 20));
    assert!(decode_directory(&bytes[..bytes.len() - 1]).is_none());
    assert!(decode_directory(&bytes[..8 + 48]).is_none());
    assert!(decode_directory(&[0u8; 7]).is_none());
    assert_eq!(decode_directory(&[0u8; 8]).unwrap().len(), 0);
}

#[test]
fn manager_opens_a_pack_when_none_is_open_or_the_open_one_is_full() {
    let mut manager = PackManager::new(40);
    let a = vec![1u8; 10];
    let b = vec![2u8; 10];
    let noise: Vec<u8> = (0..200u32).map(|i| (i * 7919 % 251) as u8).collect();
    assert!(manager.add_chunk(ChunkID::from_data(&a), &a).unwrap().is_none());
    // the open pack is not full yet: the chunk joins it
    assert!(manager.add_chunk(ChunkID::from_data(&b), &b).unwrap().is_none());
    assert!(manager.add_chunk(ChunkID::from_data(&noise), &noise).unwrap().is_none());
    // now it is full: the next chunk opens a new pack and the full one comes back
    let c = vec![3u8; 10];
    let first = manager.add_chunk(ChunkID::from_data(&c), &c).unwrap().unwrap();
    assert_eq!(first.chunks.len(), 3);
    assert!(first.is_full(40));
    assert_eq!(first.get_chunk(&ChunkID::from_data(&noise)).unwrap(), noise);
    assert!(first.header.pack_id.starts_with("pack-00000000-"));
    assert_eq!(first.header.pack_id.len(), 5 + 8 + 1 + 36);

    let second = manager.finish_current_pack().unwrap();
    assert_eq!(second.chunks.len(), 1);
    assert_eq!(second.get_chunk(&ChunkID::from_data(&c)).unwrap(), c);
    assert!(second.header.pack_id.starts_with("pack-00000001-"));
    assert!(manager.finish_current_pack().is_none());

    let third = {
        manager.add_chunk(ChunkID::from_data(&a), &a).unwrap();
        manager.finish_current_pack().unwrap()
    };
    assert!(third.header.pack_id.starts_with("pack-00000002-"));
}
