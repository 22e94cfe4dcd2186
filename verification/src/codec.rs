//! The binary form of a pack's header and chunk directory.
//!
//! Integers are little-endian and of fixed width; a string is its length in
//! bytes as a 64-bit integer followed by its UTF-8 bytes; a directory is the
//! number of its entries as a 64-bit integer followed by the entries, 48
//! bytes each.  Each value has exactly one encoding, and decoding accepts
//! nothing else.

use crate::types::ChunkID;
use vstd::bytes::{
    spec_u32_from_le_bytes, spec_u32_to_le_bytes, spec_u64_from_le_bytes, spec_u64_to_le_bytes,
    u32_from_le_bytes, u32_to_le_bytes, u64_from_le_bytes, u64_to_le_bytes,
};
use vstd::prelude::*;
use vstd::slice::slice_subrange;
use vstd::utf8::{decode_utf8, encode_utf8, valid_utf8};

verus! {

/// Length of an encoded directory entry, in bytes.
pub const ENTRY_LEN: usize = 48;

/// Length of an encoded header without the bytes of its pack identifier.
pub const HEADER_FIXED_LEN: usize = 36;

/// The header of a pack: its identifier, how many chunks it holds, their
/// total plaintext and stored sizes, and when it was begun, in seconds since
/// the epoch.
#[derive(Debug)]
pub struct PackHeader {
    pub pack_id: String,
    pub chunk_count: u32,
    pub uncompressed_size: u64,
    pub compressed_size: u64,
    pub created_at: i64,
}

/// What a `PackHeader` holds, as plain values.
pub ghost struct PackHeaderView {
    pub pack_id: Seq<char>,
    pub chunk_count: u32,
    pub uncompressed_size: u64,
    pub compressed_size: u64,
    pub created_at: i64,
}

impl View for PackHeader {
    type V = PackHeaderView;

    open spec fn view(&self) -> PackHeaderView {
        PackHeaderView {
            pack_id: self.pack_id@,
            chunk_count: self.chunk_count,
            uncompressed_size: self.uncompressed_size,
            compressed_size: self.compressed_size,
            created_at: self.created_at,
        }
    }
}

impl Clone for PackHeader {
    fn clone(&self) -> (copy: Self)
        ensures
            copy@ == self@,
    {
        PackHeader {
            pack_id: self.pack_id.clone(),
            chunk_count: self.chunk_count,
            uncompressed_size: self.uncompressed_size,
            compressed_size: self.compressed_size,
            created_at: self.created_at,
        }
    }
}

/// Where a chunk lies in the data region of its pack: `offset` and `length`
/// are those of its compressed bytes, `uncompressed_length` is the size of
/// its plaintext.
#[derive(Debug, Clone, Copy)]
pub struct PackedChunk {
    pub id: ChunkID,
    pub offset: u64,
    pub length: u32,
    pub uncompressed_length: u32,
}

/// What a `PackedChunk` holds, as plain values.
pub ghost struct PackedChunkView {
    pub id: Seq<u8>,
    pub offset: u64,
    pub length: u32,
    pub uncompressed_length: u32,
}

impl View for PackedChunk {
    type V = PackedChunkView;

    open spec fn view(&self) -> PackedChunkView {
        PackedChunkView {
            id: self.id@,
            offset: self.offset,
            length: self.length,
            uncompressed_length: self.uncompressed_length,
        }
    }
}

/// The views of a directory's entries.
pub open spec fn entry_views(entries: Seq<PackedChunk>) -> Seq<PackedChunkView> {
    Seq::new(entries.len(), |i: int| entries[i]@)
}

/// Calls `String::from_utf8`, which accepts exactly the well-formed UTF-8
/// strings and returns the text that the bytes encode.
#[verifier::external_body]
fn string_from_utf8(bytes: Vec<u8>) -> (text: Option<String>)
    ensures
        text.is_some() == valid_utf8(bytes@),
        text matches Some(s) ==> s@ == decode_utf8(bytes@),
{
    String::from_utf8(bytes).ok()
}

/// The 64 bits of a signed integer, read as an unsigned one.
pub open spec fn bits_of(x: i64) -> u64 {
    x as u64
}

/// The signed integer with the 64 bits given.
pub open spec fn signed_of(x: u64) -> i64 {
    x as i64
}

/// The encoding of a header.
pub open spec fn header_encoding(header: PackHeaderView) -> Seq<u8> {
    let id = encode_utf8(header.pack_id);
    spec_u64_to_le_bytes(id.len() as u64) + id + spec_u32_to_le_bytes(header.chunk_count)
        + spec_u64_to_le_bytes(header.uncompressed_size) + spec_u64_to_le_bytes(
        header.compressed_size,
    ) + spec_u64_to_le_bytes(bits_of(header.created_at))
}

/// The header that `bytes` encode, if they encode one.
pub open spec fn header_decoding(bytes: Seq<u8>) -> Option<PackHeaderView> {
    if bytes.len() < HEADER_FIXED_LEN {
        None
    } else {
        let n = spec_u64_from_le_bytes(bytes.subrange(0, 8)) as int;
        if bytes.len() != HEADER_FIXED_LEN + n {
            None
        } else if !valid_utf8(bytes.subrange(8, 8 + n)) {
            None
        } else {
            Some(
                PackHeaderView {
                    pack_id: decode_utf8(bytes.subrange(8, 8 + n)),
                    chunk_count: spec_u32_from_le_bytes(bytes.subrange(8 + n, 12 + n)),
                    uncompressed_size: spec_u64_from_le_bytes(bytes.subrange(12 + n, 20 + n)),
                    compressed_size: spec_u64_from_le_bytes(bytes.subrange(20 + n, 28 + n)),
                    created_at: signed_of(spec_u64_from_le_bytes(bytes.subrange(28 + n, 36 + n))),
                },
            )
        }
    }
}

/// The encoding of one directory entry, 48 bytes.
pub open spec fn entry_encoding(entry: PackedChunkView) -> Seq<u8> {
    entry.id + spec_u64_to_le_bytes(entry.offset) + spec_u32_to_le_bytes(entry.length)
        + spec_u32_to_le_bytes(entry.uncompressed_length)
}

/// The entry that the 48 bytes from `at` on encode.
pub open spec fn entry_at(bytes: Seq<u8>, at: int) -> PackedChunkView {
    PackedChunkView {
        id: bytes.subrange(at, at + 32),
        offset: spec_u64_from_le_bytes(bytes.subrange(at + 32, at + 40)),
        length: spec_u32_from_le_bytes(bytes.subrange(at + 40, at + 44)),
        uncompressed_length: spec_u32_from_le_bytes(bytes.subrange(at + 44, at + 48)),
    }
}

/// The encodings of the entries, one after the other.
pub open spec fn entries_encoding(entries: Seq<PackedChunkView>) -> Seq<u8>
    decreases entries.len(),
{
    if entries.len() == 0 {
        Seq::empty()
    } else {
        entries_encoding(entries.drop_last()) + entry_encoding(entries.last())
    }
}

/// The encoding of a directory.
pub open spec fn directory_encoding(entries: Seq<PackedChunkView>) -> Seq<u8> {
    spec_u64_to_le_bytes(entries.len() as u64) + entries_encoding(entries)
}

/// The directory that `bytes` encode, if they encode one.
pub open spec fn directory_decoding(bytes: Seq<u8>) -> Option<Seq<PackedChunkView>> {
    if bytes.len() < 8 {
        None
    } else {
        let n = spec_u64_from_le_bytes(bytes.subrange(0, 8)) as int;
        if bytes.len() != 8 + ENTRY_LEN * n {
            None
        } else {
            Some(Seq::new(n as nat, |i: int| entry_at(bytes, 8 + ENTRY_LEN * i)))
        }
    }
}

/// Whether every entry names its chunk by 32 bytes.
pub open spec fn ids_sized(entries: Seq<PackedChunkView>) -> bool {
    forall|i: int| 0 <= i < entries.len() ==> (#[trigger] entries[i]).id.len() == 32
}

proof fn lemma_entry_len(entry: PackedChunkView)
    requires
        entry.id.len() == 32,
    ensures
        entry_encoding(entry).len() == ENTRY_LEN,
        entry_at(entry_encoding(entry), 0) == entry,
{
    vstd::bytes::lemma_auto_spec_u32_to_from_le_bytes();
    vstd::bytes::lemma_auto_spec_u64_to_from_le_bytes();
    let e = entry_encoding(entry);
    assert(e.subrange(0, 32) =~= entry.id);
    assert(e.subrange(32, 40) =~= spec_u64_to_le_bytes(entry.offset));
    assert(e.subrange(40, 44) =~= spec_u32_to_le_bytes(entry.length));
    assert(e.subrange(44, 48) =~= spec_u32_to_le_bytes(entry.uncompressed_length));
}

proof fn lemma_entries_len(entries: Seq<PackedChunkView>)
    requires
        ids_sized(entries),
    ensures
        entries_encoding(entries).len() == ENTRY_LEN * entries.len(),
    decreases entries.len(),
{
    if entries.len() > 0 {
        lemma_entries_len(entries.drop_last());
        lemma_entry_len(entries.last());
    }
}

proof fn lemma_entries_at(entries: Seq<PackedChunkView>, index: int)
    requires
        ids_sized(entries),
        0 <= index < entries.len(),
    ensures
        entries_encoding(entries).len() == ENTRY_LEN * entries.len(),
        entries_encoding(entries).subrange(ENTRY_LEN * index, ENTRY_LEN * index + ENTRY_LEN)
            == entry_encoding(entries[index]),
    decreases entries.len(),
{
    lemma_entries_len(entries);
    lemma_entries_len(entries.drop_last());
    lemma_entry_len(entries.last());
    let all = entries_encoding(entries);
    let front = entries_encoding(entries.drop_last());
    if index == entries.len() - 1 {
        assert(all.subrange(ENTRY_LEN * index, ENTRY_LEN * index + ENTRY_LEN) =~= entry_encoding(
            entries.last(),
        ));
    } else {
        lemma_entries_at(entries.drop_last(), index);
        assert(all.subrange(ENTRY_LEN * index, ENTRY_LEN * index + ENTRY_LEN) =~= front.subrange(
            ENTRY_LEN * index,
            ENTRY_LEN * index + ENTRY_LEN,
        ));
    }
}

/// Appending an entry appends its encoding.
pub proof fn lemma_entries_push(entries: Seq<PackedChunkView>, entry: PackedChunkView)
    ensures
        entries_encoding(entries.push(entry)) == entries_encoding(entries) + entry_encoding(entry),
{
    assert(entries.push(entry).drop_last() =~= entries);
}

/// Decoding a header's encoding gives the header back.
pub proof fn lemma_header_round_trip(header: PackHeaderView)
    requires
        encode_utf8(header.pack_id).len() <= u64::MAX,
    ensures
        header_decoding(header_encoding(header)) == Some(header),
{
    vstd::bytes::lemma_auto_spec_u32_to_from_le_bytes();
    vstd::bytes::lemma_auto_spec_u64_to_from_le_bytes();
    vstd::utf8::encode_utf8_valid_utf8(header.pack_id);
    vstd::utf8::encode_utf8_decode_utf8(header.pack_id);
    let id = encode_utf8(header.pack_id);
    let n = id.len() as int;
    let bytes = header_encoding(header);
    assert(bytes.len() == HEADER_FIXED_LEN + n);
    assert(bytes.subrange(0, 8) =~= spec_u64_to_le_bytes(id.len() as u64));
    assert(bytes.subrange(8, 8 + n) =~= id);
    assert(bytes.subrange(8 + n, 12 + n) =~= spec_u32_to_le_bytes(header.chunk_count));
    assert(bytes.subrange(12 + n, 20 + n) =~= spec_u64_to_le_bytes(header.uncompressed_size));
    assert(bytes.subrange(20 + n, 28 + n) =~= spec_u64_to_le_bytes(header.compressed_size));
    assert(bytes.subrange(28 + n, 36 + n) =~= spec_u64_to_le_bytes(bits_of(header.created_at)));
    let t = header.created_at;
    assert((t as u64) as i64 == t) by (bit_vector);
}

/// Decoding a directory's encoding gives the directory back.
pub proof fn lemma_directory_round_trip(entries: Seq<PackedChunkView>)
    requires
        ids_sized(entries),
        entries.len() <= u64::MAX,
    ensures
        directory_decoding(directory_encoding(entries)) == Some(entries),
{
    vstd::bytes::lemma_auto_spec_u64_to_from_le_bytes();
    lemma_entries_len(entries);
    let bytes = directory_encoding(entries);
    let body = entries_encoding(entries);
    assert(bytes.subrange(0, 8) =~= spec_u64_to_le_bytes(entries.len() as u64));
    let decoded = Seq::new(entries.len(), |i: int| entry_at(bytes, 8 + ENTRY_LEN * i));
    assert forall|i: int| 0 <= i < entries.len() implies decoded[i] == entries[i] by {
        lemma_entries_at(entries, i);
        lemma_entry_len(entries[i]);
        let at = 8 + ENTRY_LEN * i;
        let piece = entry_encoding(entries[i]);
        assert(bytes.subrange(at, at + ENTRY_LEN) =~= body.subrange(
            ENTRY_LEN * i,
            ENTRY_LEN * i + ENTRY_LEN,
        ));
        assert(bytes.subrange(at, at + 32) =~= piece.subrange(0, 32));
        assert(bytes.subrange(at + 32, at + 40) =~= piece.subrange(32, 40));
        assert(bytes.subrange(at + 40, at + 44) =~= piece.subrange(40, 44));
        assert(bytes.subrange(at + 44, at + 48) =~= piece.subrange(44, 48));
    }
    assert(decoded =~= entries);
}

/// Writes a header in its binary form.
pub fn encode_header(header: &PackHeader) -> (bytes: Vec<u8>)
    ensures
        bytes@ == header_encoding(header@),
{
    let id = header.pack_id.as_str().as_bytes();
    let mut out = u64_to_le_bytes(id.len() as u64);
    out.extend_from_slice(id);
    let count = u32_to_le_bytes(header.chunk_count);
    out.extend_from_slice(count.as_slice());
    let plain = u64_to_le_bytes(header.uncompressed_size);
    out.extend_from_slice(plain.as_slice());
    let stored = u64_to_le_bytes(header.compressed_size);
    out.extend_from_slice(stored.as_slice());
    let created = u64_to_le_bytes(header.created_at as u64);
    out.extend_from_slice(created.as_slice());
    assert(out@ =~= header_encoding(header@));
    out
}

/// Reads a header from its binary form.
pub fn decode_header(bytes: &[u8]) -> (r: Option<PackHeader>)
    ensures
        match header_decoding(bytes@) {
            Some(header) => r matches Some(h) && h@ == header,
            None => r is None,
        },
{
    let len = bytes.len();
    if len < HEADER_FIXED_LEN {
        return None;
    }
    let n = u64_from_le_bytes(slice_subrange(bytes, 0, 8));
    if (len - HEADER_FIXED_LEN) as u64 != n {
        return None;
    }
    let n: usize = len - HEADER_FIXED_LEN;
    let mut id: Vec<u8> = Vec::new();
    id.extend_from_slice(slice_subrange(bytes, 8, 8 + n));
    assert(id@ =~= bytes@.subrange(8, 8 + n));
    let pack_id = match string_from_utf8(id) {
        Some(text) => text,
        None => {
            return None;
        },
    };
    let chunk_count = u32_from_le_bytes(slice_subrange(bytes, 8 + n, 12 + n));
    let uncompressed_size = u64_from_le_bytes(slice_subrange(bytes, 12 + n, 20 + n));
    let compressed_size = u64_from_le_bytes(slice_subrange(bytes, 20 + n, 28 + n));
    let created_at = u64_from_le_bytes(slice_subrange(bytes, 28 + n, 36 + n)) as i64;
    Some(PackHeader { pack_id, chunk_count, uncompressed_size, compressed_size, created_at })
}

/// Writes a directory in its binary form.
pub fn encode_directory(entries: &Vec<PackedChunk>) -> (bytes: Vec<u8>)
    ensures
        bytes@ == directory_encoding(entry_views(entries@)),
{
    let ghost views = entry_views(entries@);
    let mut out = u64_to_le_bytes(entries.len() as u64);
    let mut i: usize = 0;
    while i < entries.len()
        invariant
            i <= entries.len(),
            views == entry_views(entries@),
            out@ == spec_u64_to_le_bytes(entries.len() as u64) + entries_encoding(
                views.subrange(0, i as int),
            ),
        decreases entries.len() - i,
    {
        let entry = &entries[i];
        let ghost before = out@;
        out.extend_from_slice(entry.id.as_bytes().as_slice());
        let offset = u64_to_le_bytes(entry.offset);
        out.extend_from_slice(offset.as_slice());
        let length = u32_to_le_bytes(entry.length);
        out.extend_from_slice(length.as_slice());
        let plain = u32_to_le_bytes(entry.uncompressed_length);
        out.extend_from_slice(plain.as_slice());
        proof {
            assert(out@ =~= before + entry_encoding(views[i as int]));
            lemma_entries_push(views.subrange(0, i as int), views[i as int]);
            assert(views.subrange(0, i as int).push(views[i as int]) =~= views.subrange(
                0,
                i + 1,
            ));
        }
        i += 1;
    }
    assert(views.subrange(0, entries.len() as int) =~= views);
    out
}

/// Reads a directory from its binary form.
pub fn decode_directory(bytes: &[u8]) -> (r: Option<Vec<PackedChunk>>)
    ensures
        match directory_decoding(bytes@) {
            Some(entries) => r matches Some(v) && entry_views(v@) == entries,
            None => r is None,
        },
{
    let len = bytes.len();
    if len < 8 {
        return None;
    }
    let n = u64_from_le_bytes(slice_subrange(bytes, 0, 8));
    let body = len - 8;
    if body % ENTRY_LEN != 0 || (body / ENTRY_LEN) as u64 != n {
        return None;
    }
    let count: usize = body / ENTRY_LEN;
    let ghost expected = Seq::new(count as nat, |i: int| entry_at(bytes@, 8 + ENTRY_LEN * i));
    let mut entries: Vec<PackedChunk> = Vec::new();
    let mut i: usize = 0;
    while i < count
        invariant
            i <= count,
            bytes@.len() == 8 + 48 * count,
            bytes@.len() == bytes.len(),
            entries.len() == i,
            expected == Seq::new(count as nat, |i: int| entry_at(bytes@, 8 + ENTRY_LEN * i)),
            forall|j: int| 0 <= j < i ==> (#[trigger] entries[j])@ == expected[j],
        decreases count - i,
    {
        let at: usize = 8 + ENTRY_LEN * i;
        let id = match ChunkID::from_slice(slice_subrange(bytes, at, at + 32)) {
            Some(id) => id,
            None => {
                return None;
            },
        };
        let offset = u64_from_le_bytes(slice_subrange(bytes, at + 32, at + 40));
        let length = u32_from_le_bytes(slice_subrange(bytes, at + 40, at + 44));
        let uncompressed_length = u32_from_le_bytes(slice_subrange(bytes, at + 44, at + 48));
        entries.push(PackedChunk { id, offset, length, uncompressed_length });
        i += 1;
    }
    assert(entry_views(entries@) =~= expected);
    Some(entries)
}

} // verus!
