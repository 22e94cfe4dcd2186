//! Packs: many compressed chunks in one sealed object.
//!
//! A pack under construction holds a data region, to which the compressed
//! bytes of each new chunk are appended, and a directory that says where
//! each chunk lies.  A finished pack is written as three sealed blocks, the
//! header and the directory each behind its sealed length as a little-endian
//! 32-bit integer, the data region to the end of the object.

use crate::codec::{
    PackHeader, PackHeaderView, PackedChunk, PackedChunkView, decode_directory, decode_header,
    directory_decoding, directory_encoding, encode_directory, encode_header, entry_views,
    header_decoding, header_encoding, ids_sized,
};
use crate::crypto::{Encryptor, decrypted, is_sealing, sealable_len, NONCE_LEN, TAG_LEN};
use crate::error::Error;
use crate::hexcode::{digit_char, hex_lower};
use crate::text::text_of;
use crate::types::ChunkID;
use vstd::bytes::{spec_u32_from_le_bytes, spec_u32_to_le_bytes, u32_from_le_bytes, u32_to_le_bytes};
use vstd::prelude::*;
use vstd::slice::slice_subrange;
use vstd::string::StringExecFns;
use vstd::utf8::encode_utf8;

verus! {

/// The default cap on the data region of a pack, 64 MiB of compressed bytes.
pub const DEFAULT_PACK_SIZE: u64 = 67_108_864;

/// The zlib stream that flate2's encoder, at its default level, makes of
/// `data`, or `None` where the encoder reports an error.
pub uninterp spec fn zlib_deflated(data: Seq<u8>) -> Option<Seq<u8>>;

/// What a zlib stream inflates to, or `None` where `data` is no such stream.
pub uninterp spec fn zlib_inflated(data: Seq<u8>) -> Option<Seq<u8>>;

/// What the encoder or the decoder handed back, the bytes as a sequence.
pub open spec fn stream_view(outcome: core::result::Result<Vec<u8>, String>) -> Option<Seq<u8>> {
    match outcome {
        Ok(bytes) => Some(bytes@),
        Err(_) => None,
    }
}

/// Feeds `data` to a `flate2::write::ZlibEncoder` at the default level and
/// finishes the stream.  What comes back depends on `data` alone; on success
/// it is the stream, from which the decoder gives `data` back; an error comes
/// back as its message.
#[verifier::external_body]
fn zlib_compress(data: &[u8]) -> (outcome: core::result::Result<Vec<u8>, String>)
    ensures
        stream_view(outcome) == zlib_deflated(data@),
        outcome matches Ok(stream) ==> zlib_inflated(stream@) == Some(data@),
{
    let mut encoder = flate2::write::ZlibEncoder::new(Vec::new(), flate2::Compression::default());
    std::io::Write::write_all(&mut encoder, data).map_err(|e| e.to_string())?;
    encoder.finish().map_err(|e| e.to_string())
}

/// Reads a `flate2::read::ZlibDecoder` over `data` to its end.  What comes
/// back depends on `data` alone; an error comes back as its message.
#[verifier::external_body]
fn zlib_decompress(data: &[u8]) -> (outcome: core::result::Result<Vec<u8>, String>)
    ensures
        stream_view(outcome) == zlib_inflated(data@),
{
    let mut decoder = flate2::read::ZlibDecoder::new(data);
    let mut plain = Vec::new();
    std::io::Read::read_to_end(&mut decoder, &mut plain).map_err(|e| e.to_string())?;
    Ok(plain)
}

/// Reads the clock by `chrono::Utc::now` and gives the seconds since the
/// epoch.  Nothing is known of the value.
#[verifier::external_body]
pub(crate) fn unix_now() -> (seconds: i64) {
    chrono::Utc::now().timestamp()
}

/// A pack: header, chunk directory in the order of arrival, and data region.
/// The directory is a list, for a map keyed by identifiers has no
/// specification to prove a lookup against; that no identifier is in it
/// twice is part of `well_formed`.
#[derive(Debug)]
pub struct PackFile {
    pub header: PackHeader,
    pub chunks: Vec<PackedChunk>,
    pub data: Vec<u8>,
}

/// What a `PackFile` holds, as plain values.
pub ghost struct PackFileView {
    pub header: PackHeaderView,
    pub chunks: Seq<PackedChunkView>,
    pub data: Seq<u8>,
}

impl View for PackFile {
    type V = PackFileView;

    open spec fn view(&self) -> PackFileView {
        PackFileView { header: self.header@, chunks: entry_views(self.chunks@), data: self.data@ }
    }
}

/// What reading a chunk from a pack comes to.
pub ghost enum ChunkRead {
    /// The directory points outside the data region.
    Corrupt,
    /// The directory does not name the chunk.
    Missing,
    /// The stored bytes do not inflate.
    Garbled,
    /// The chunk's plaintext.
    Plain(Seq<u8>),
}

/// Whether the directory names the chunk `id`.
pub open spec fn directory_holds(chunks: Seq<PackedChunkView>, id: Seq<u8>) -> bool {
    exists|i: int| 0 <= i < chunks.len() && (#[trigger] chunks[i]).id == id
}

/// Whether `index` is the first entry of the directory that names `id`.
pub open spec fn is_first_entry(chunks: Seq<PackedChunkView>, id: Seq<u8>, index: int) -> bool {
    &&& 0 <= index < chunks.len()
    &&& chunks[index].id == id
    &&& forall|j: int| 0 <= j < index ==> (#[trigger] chunks[j]).id != id
}

/// The first entry of the directory that names `id`.
pub open spec fn first_entry(chunks: Seq<PackedChunkView>, id: Seq<u8>) -> int {
    choose|index: int| is_first_entry(chunks, id, index)
}

/// Whether an entry lies within a data region of `len` bytes.
pub open spec fn entry_in_bounds(entry: PackedChunkView, len: nat) -> bool {
    entry.offset + entry.length <= len
}

/// Whether every entry of the directory lies within the data region.
pub open spec fn directory_in_bounds(chunks: Seq<PackedChunkView>, len: nat) -> bool {
    forall|i: int| 0 <= i < chunks.len() ==> entry_in_bounds(#[trigger] chunks[i], len)
}

/// The bytes that an entry points at.
pub open spec fn stored_bytes(data: Seq<u8>, entry: PackedChunkView) -> Seq<u8> {
    data.subrange(entry.offset as int, entry.offset + entry.length)
}

/// What reading the chunk `id` from `pack` comes to.  A directory that
/// points outside the data region spoils every read.
pub open spec fn chunk_read(pack: PackFileView, id: Seq<u8>) -> ChunkRead {
    if !directory_in_bounds(pack.chunks, pack.data.len()) {
        ChunkRead::Corrupt
    } else if !directory_holds(pack.chunks, id) {
        ChunkRead::Missing
    } else {
        match zlib_inflated(stored_bytes(pack.data, pack.chunks[first_entry(pack.chunks, id)])) {
            Some(plain) => ChunkRead::Plain(plain),
            None => ChunkRead::Garbled,
        }
    }
}

/// The total of the plaintext lengths of the entries.
pub open spec fn plain_total(chunks: Seq<PackedChunkView>) -> nat
    decreases chunks.len(),
{
    if chunks.len() == 0 {
        0
    } else {
        plain_total(chunks.drop_last()) + chunks.last().uncompressed_length as nat
    }
}

/// Whether the entries lie one after the other from the start of a data
/// region of `len` bytes to its end.
pub open spec fn laid_out(chunks: Seq<PackedChunkView>, len: nat) -> bool {
    &&& chunks.len() == 0 ==> len == 0
    &&& chunks.len() > 0 ==> chunks[0].offset == 0
    &&& forall|i: int|
        0 <= i < chunks.len() - 1 ==> (#[trigger] chunks[i]).offset + chunks[i].length
            == chunks[i + 1].offset
    &&& chunks.len() > 0 ==> chunks.last().offset + chunks.last().length == len
}

/// Whether no two entries name the same chunk.
pub open spec fn ids_distinct(chunks: Seq<PackedChunkView>) -> bool {
    forall|i: int, j: int|
        0 <= i < j < chunks.len() ==> (#[trigger] chunks[i]).id != (#[trigger] chunks[j]).id
}

/// The invariant of a pack under construction: the directory and the data
/// region fit each other.  No chunk is named twice; the ranges of the entries
/// follow each other without a gap and fill the data region, so that they lie
/// within it and do not overlap; and the header's totals are those of the
/// directory.
pub open spec fn well_formed(pack: PackFileView) -> bool {
    &&& ids_sized(pack.chunks)
    &&& ids_distinct(pack.chunks)
    &&& laid_out(pack.chunks, pack.data.len())
    &&& pack.chunks.len() <= u32::MAX
    &&& pack.header.chunk_count == pack.chunks.len()
    &&& pack.header.compressed_size == pack.data.len()
    &&& pack.header.uncompressed_size == plain_total(pack.chunks)
}

/// The pack that `pack` becomes when a chunk that it does not hold is added
/// with the compressed bytes `stored`.
pub open spec fn with_chunk(pack: PackFileView, id: Seq<u8>, plain_len: nat, stored: Seq<u8>) -> PackFileView {
    PackFileView {
        header: PackHeaderView {
            pack_id: pack.header.pack_id,
            chunk_count: (pack.header.chunk_count + 1) as u32,
            uncompressed_size: (pack.header.uncompressed_size + plain_len) as u64,
            compressed_size: (pack.header.compressed_size + stored.len()) as u64,
            created_at: pack.header.created_at,
        },
        chunks: pack.chunks.push(
            PackedChunkView {
                id,
                offset: pack.data.len() as u64,
                length: stored.len() as u32,
                uncompressed_length: plain_len as u32,
            },
        ),
        data: pack.data + stored,
    }
}

/// Whether a chunk of `plain_len` bytes that compresses to `stored_len`
/// bytes still fits the pack: both lengths and the number of chunks are
/// kept in 32 bits, and the data region must stay addressable.
pub open spec fn chunk_fits(pack: PackFileView, plain_len: nat, stored_len: nat) -> bool {
    &&& plain_len <= u32::MAX
    &&& stored_len <= u32::MAX
    &&& pack.chunks.len() < u32::MAX
    &&& pack.data.len() + stored_len <= usize::MAX
}

/// What adding a chunk with the plaintext `data` makes of a pack: the pack
/// itself where it holds the chunk already, the pack with the chunk's
/// compressed bytes where the chunk compresses and fits, and else nothing.
pub open spec fn chunk_added(pack: PackFileView, id: Seq<u8>, data: Seq<u8>) -> Option<PackFileView> {
    if directory_holds(pack.chunks, id) {
        Some(pack)
    } else {
        match zlib_deflated(data) {
            Some(stored) => if chunk_fits(pack, data.len(), stored.len()) {
                Some(with_chunk(pack, id, data.len(), stored))
            } else {
                None
            },
            None => None,
        }
    }
}

/// Whether a chunk with the plaintext `data` can be the first of a pack: it
/// has to compress, and its two lengths have to fit in 32 bits.
pub open spec fn opens_pack(data: Seq<u8>) -> bool {
    zlib_deflated(data) matches Some(stored) && data.len() <= u32::MAX && stored.len() <= u32::MAX
}

/// In a pack whose ranges follow each other, every entry lies within the
/// data region.
pub proof fn lemma_laid_out_in_bounds(chunks: Seq<PackedChunkView>, len: nat)
    requires
        laid_out(chunks, len),
    ensures
        directory_in_bounds(chunks, len),
{
    assert forall|i: int| 0 <= i < chunks.len() implies entry_in_bounds(#[trigger] chunks[i], len) by {
        lemma_entry_ends(chunks, len, i);
    }
}

proof fn lemma_entry_ends(chunks: Seq<PackedChunkView>, len: nat, index: int)
    requires
        laid_out(chunks, len),
        0 <= index < chunks.len(),
    ensures
        chunks[index].offset + chunks[index].length <= len,
    decreases chunks.len() - index,
{
    if index < chunks.len() - 1 {
        lemma_entry_ends(chunks, len, index + 1);
        assert(chunks[index].offset + chunks[index].length == chunks[index + 1].offset);
    } else {
        assert(chunks[index] == chunks.last());
    }
}

/// The plaintext total of a directory is at most its length times the
/// greatest length of a chunk.
proof fn lemma_plain_total_bound(chunks: Seq<PackedChunkView>)
    ensures
        plain_total(chunks) <= chunks.len() * u32::MAX,
    decreases chunks.len(),
{
    if chunks.len() > 0 {
        lemma_plain_total_bound(chunks.drop_last());
        assert((chunks.len() - 1) * u32::MAX + u32::MAX == chunks.len() * u32::MAX)
            by (nonlinear_arith);
    }
}

/// A directory names at most one first entry for a chunk.
proof fn lemma_first_entry_is(chunks: Seq<PackedChunkView>, id: Seq<u8>, index: int)
    requires
        is_first_entry(chunks, id, index),
    ensures
        directory_holds(chunks, id),
        first_entry(chunks, id) == index,
{
    let other = first_entry(chunks, id);
    assert(is_first_entry(chunks, id, other));
    if other < index {
        assert(chunks[other].id != id);
    }
    if index < other {
        assert(chunks[index].id != id);
    }
}

/// A directory that names a chunk has a first entry for it.
proof fn lemma_holds_has_first(chunks: Seq<PackedChunkView>, id: Seq<u8>, upto: int) -> (index: int)
    requires
        0 <= upto < chunks.len(),
        chunks[upto].id == id,
    ensures
        is_first_entry(chunks, id, index),
        index <= upto,
    decreases upto,
{
    if exists|j: int| 0 <= j < upto && (#[trigger] chunks[j]).id == id {
        let j = choose|j: int| 0 <= j < upto && (#[trigger] chunks[j]).id == id;
        lemma_holds_has_first(chunks, id, j)
    } else {
        upto
    }
}

/// In a directory that names a chunk, `first_entry` is its first entry.
pub proof fn lemma_first_entry_exists(chunks: Seq<PackedChunkView>, id: Seq<u8>)
    requires
        directory_holds(chunks, id),
    ensures
        is_first_entry(chunks, id, first_entry(chunks, id)),
{
    let some = choose|i: int| 0 <= i < chunks.len() && (#[trigger] chunks[i]).id == id;
    let first = lemma_holds_has_first(chunks, id, some);
    assert(is_first_entry(chunks, id, first));
}

/// What reading a chunk comes to whose stored bytes are `stored`.
pub open spec fn read_of(stored: Seq<u8>) -> ChunkRead {
    match zlib_inflated(stored) {
        Some(plain) => ChunkRead::Plain(plain),
        None => ChunkRead::Garbled,
    }
}

/// Adding a chunk that a well-formed pack does not hold keeps the pack
/// well-formed, lets the new chunk be read from the bytes stored for it, and
/// changes no other read.
pub proof fn lemma_with_chunk(pack: PackFileView, id: Seq<u8>, plain_len: nat, stored: Seq<u8>)
    requires
        well_formed(pack),
        id.len() == 32,
        !directory_holds(pack.chunks, id),
        chunk_fits(pack, plain_len, stored.len()),
    ensures
        well_formed(with_chunk(pack, id, plain_len, stored)),
        chunk_read(with_chunk(pack, id, plain_len, stored), id) == read_of(stored),
        forall|other: Seq<u8>|
            other != id ==> chunk_read(with_chunk(pack, id, plain_len, stored), other)
                == chunk_read(pack, other),
{
    let next = with_chunk(pack, id, plain_len, stored);
    let n = pack.chunks.len() as int;
    let entry = next.chunks[n];
    lemma_laid_out_in_bounds(pack.chunks, pack.data.len());
    lemma_plain_total_bound(pack.chunks);
    assert(pack.chunks.len() * u32::MAX + u32::MAX <= u64::MAX) by (nonlinear_arith)
        requires
            pack.chunks.len() < u32::MAX,
    ;
    assert(next.chunks.drop_last() =~= pack.chunks);
    assert(next.chunks.last() == entry);
    assert forall|i: int| 0 <= i < next.chunks.len() implies (#[trigger] next.chunks[i]).id.len()
        == 32 by {
        if i < n {
            assert(next.chunks[i] == pack.chunks[i]);
        }
    }
    assert forall|i: int, j: int| 0 <= i < j < next.chunks.len() implies (
    #[trigger] next.chunks[i]).id != (#[trigger] next.chunks[j]).id by {
        assert(next.chunks[i] == pack.chunks[i]);
        if j < n {
            assert(next.chunks[j] == pack.chunks[j]);
        }
    }
    assert(laid_out(next.chunks, next.data.len())) by {
        if n > 0 {
            assert(pack.chunks.last() == pack.chunks[n - 1]);
            assert(next.chunks[0] == pack.chunks[0]);
        }
        assert forall|i: int| 0 <= i < next.chunks.len() - 1 implies (#[trigger] next.chunks[i]).offset
            + next.chunks[i].length == next.chunks[i + 1].offset by {
            assert(next.chunks[i] == pack.chunks[i]);
            if i + 1 < n {
                assert(next.chunks[i + 1] == pack.chunks[i + 1]);
            }
        }
    }
    assert(well_formed(next));
    lemma_laid_out_in_bounds(next.chunks, next.data.len());
    assert(is_first_entry(next.chunks, id, n)) by {
        assert forall|j: int| 0 <= j < n implies (#[trigger] next.chunks[j]).id != id by {
            assert(next.chunks[j] == pack.chunks[j]);
        }
    }
    lemma_first_entry_is(next.chunks, id, n);
    assert(stored_bytes(next.data, entry) =~= stored);
    assert forall|other: Seq<u8>| other != id implies chunk_read(next, other) == chunk_read(
        pack,
        other,
    ) by {
        if directory_holds(pack.chunks, other) {
            let k = first_entry(pack.chunks, other);
            lemma_first_entry_exists(pack.chunks, other);
            assert(is_first_entry(next.chunks, other, k)) by {
                assert(next.chunks[k] == pack.chunks[k]);
                assert forall|j: int| 0 <= j < k implies (#[trigger] next.chunks[j]).id
                    != other by {
                    assert(next.chunks[j] == pack.chunks[j]);
                }
            }
            lemma_first_entry_is(next.chunks, other, k);
            assert(entry_in_bounds(pack.chunks[k], pack.data.len()));
            assert(stored_bytes(next.data, next.chunks[k]) =~= stored_bytes(
                pack.data,
                pack.chunks[k],
            ));
        } else {
            if directory_holds(next.chunks, other) {
                let k = choose|k: int|
                    0 <= k < next.chunks.len() && (#[trigger] next.chunks[k]).id == other;
                if k < n {
                    assert(next.chunks[k] == pack.chunks[k]);
                }
            }
        }
    }
}

/// The hexadecimal digits of a number.
fn hex_chars(n: u64) -> (digits: Vec<char>)
    ensures
        digits@ == hex_number(n as nat),
    decreases n,
{
    if n < 16 {
        let mut digits: Vec<char> = Vec::new();
        digits.push(digit_char(n as u8));
        assert(digits@ =~= seq![crate::hexcode::hex_digit(n as u8)]);
        digits
    } else {
        let mut digits = hex_chars(n / 16);
        digits.push(digit_char((n % 16) as u8));
        digits
    }
}

/// The counter in lower-case hexadecimal, with zeros in front up to eight
/// digits.
fn counter_digits(counter: u64) -> (text: String)
    ensures
        text@ == padded_hex(counter as nat),
{
    let digits = hex_chars(counter);
    let mut padded: Vec<char> = Vec::new();
    while padded.len() + digits.len() < 8
        invariant
            padded@.len() + digits@.len() <= 8 || padded@.len() == 0,
            forall|i: int| 0 <= i < padded@.len() ==> padded@[i] == '0',
        decreases 8 - padded.len(),
    {
        padded.push('0');
    }
    let ghost zeros = padded@;
    let mut i: usize = 0;
    while i < digits.len()
        invariant
            i <= digits.len(),
            padded@ == zeros + digits@.subrange(0, i as int),
        decreases digits.len() - i,
    {
        padded.push(digits[i]);
        assert(padded@ =~= zeros + digits@.subrange(0, i + 1));
        i += 1;
    }
    proof {
        assert(digits@.subrange(0, digits@.len() as int) =~= digits@);
        if digits@.len() >= 8 {
            assert(zeros =~= Seq::<char>::empty());
            assert(padded@ =~= digits@);
        } else {
            assert(zeros =~= Seq::new((8 - digits@.len()) as nat, |i: int| '0'));
        }
    }
    text_of(&padded)
}

/// The lower-case hexadecimal digits of a number, without leading zeros but
/// for zero itself.
pub open spec fn hex_number(n: nat) -> Seq<char>
    decreases n,
{
    if n < 16 {
        seq![crate::hexcode::hex_digit(n as u8)]
    } else {
        hex_number(n / 16).push(crate::hexcode::hex_digit((n % 16) as u8))
    }
}

/// The hexadecimal digits of a number with zeros in front up to eight
/// digits.
pub open spec fn padded_hex(n: nat) -> Seq<char> {
    let digits = hex_number(n);
    if digits.len() >= 8 {
        digits
    } else {
        Seq::new((8 - digits.len()) as nat, |i: int| '0') + digits
    }
}

impl PackFile {
    /// An empty pack with the identifier given, begun now.
    pub fn new(pack_id: String) -> (pack: Self)
        ensures
            well_formed(pack@),
            pack@.header.pack_id == pack_id@,
            pack@.chunks.len() == 0,
            pack@.data.len() == 0,
    {
        PackFile {
            header: PackHeader {
                pack_id,
                chunk_count: 0,
                uncompressed_size: 0,
                compressed_size: 0,
                created_at: unix_now(),
            },
            chunks: Vec::new(),
            data: Vec::new(),
        }
    }

    /// Whether the directory names the chunk.
    pub fn contains(&self, id: &ChunkID) -> (r: bool)
        ensures
            r == directory_holds(self@.chunks, id@),
    {
        let mut i: usize = 0;
        while i < self.chunks.len()
            invariant
                i <= self.chunks.len(),
                forall|j: int| 0 <= j < i ==> (#[trigger] self@.chunks[j]).id != id@,
            decreases self.chunks.len() - i,
        {
            if self.chunks[i].id == *id {
                assert(self@.chunks[i as int].id == id@);
                return true;
            }
            i += 1;
        }
        false
    }

    /// Adds a chunk whose compressed bytes are at hand.
    ///
    /// A chunk that the pack already holds is skipped.  A chunk that does not
    /// fit is refused and the pack stays as it was.  Otherwise the bytes are
    /// appended to the data region, the directory gets an entry for them, and
    /// the header's totals grow.
    pub fn add_compressed(&mut self, id: ChunkID, plain_len: usize, stored: Vec<u8>) -> (r:
        core::result::Result<(), Error>)
        requires
            well_formed(old(self)@),
        ensures
            well_formed(final(self)@),
            directory_holds(old(self)@.chunks, id@) ==> r is Ok && final(self)@ == old(self)@,
            !directory_holds(old(self)@.chunks, id@) && chunk_fits(
                old(self)@,
                plain_len as nat,
                stored@.len(),
            ) ==> r is Ok && final(self)@ == with_chunk(
                old(self)@,
                id@,
                plain_len as nat,
                stored@,
            ),
            !directory_holds(old(self)@.chunks, id@) && !chunk_fits(
                old(self)@,
                plain_len as nat,
                stored@.len(),
            ) ==> (r matches Err(Error::Other(_)) && final(self)@ == old(self)@),
    {
        if self.contains(&id) {
            return Ok(());
        }
        if plain_len > u32::MAX as usize || stored.len() > u32::MAX as usize || self.chunks.len()
            >= u32::MAX as usize || stored.len() > usize::MAX - self.data.len() {
            return Err(Error::Other(String::from_str("chunk does not fit the pack")));
        }
        proof {
            id.lemma_view();
            lemma_with_chunk(self@, id@, plain_len as nat, stored@);
            lemma_plain_total_bound(self@.chunks);
            assert(self@.chunks.len() * u32::MAX + u32::MAX <= u64::MAX) by (nonlinear_arith)
                requires
                    self@.chunks.len() < u32::MAX,
            ;
        }
        let entry = PackedChunk {
            id,
            offset: self.data.len() as u64,
            length: stored.len() as u32,
            uncompressed_length: plain_len as u32,
        };
        self.data.extend_from_slice(stored.as_slice());
        self.chunks.push(entry);
        self.header.chunk_count = self.header.chunk_count + 1;
        self.header.uncompressed_size = self.header.uncompressed_size + plain_len as u64;
        self.header.compressed_size = self.header.compressed_size + stored.len() as u64;
        proof {
            let want = with_chunk(old(self)@, id@, plain_len as nat, stored@);
            assert(self@.chunks =~= want.chunks);
            assert(self@.data =~= want.data);
            assert(self@ == want);
        }
        Ok(())
    }

    /// Compresses a chunk and adds it.
    ///
    /// A chunk that the pack already holds is skipped.  A chunk that does not
    /// compress or does not fit is refused, and the pack stays as it was.
    /// Where the pack changes, the chunk can be read back from it and every
    /// other chunk reads as before.
    pub fn add_chunk(&mut self, id: ChunkID, data: &[u8]) -> (r: core::result::Result<(), Error>)
        requires
            well_formed(old(self)@),
        ensures
            well_formed(final(self)@),
            match chunk_added(old(self)@, id@, data@) {
                Some(next) => r is Ok && final(self)@ == next,
                None => r matches Err(Error::Other(_)) && final(self)@ == old(self)@,
            },
            r is Ok && !directory_holds(old(self)@.chunks, id@) ==> {
                &&& chunk_read(final(self)@, id@) == ChunkRead::Plain(data@)
                &&& forall|other: Seq<u8>|
                    other != id@ ==> chunk_read(final(self)@, other) == chunk_read(
                        old(self)@,
                        other,
                    )
            },
    {
        if self.contains(&id) {
            return Ok(());
        }
        match zlib_compress(data) {
            Err(message) => Err(Error::Other(message)),
            Ok(stored) => {
                proof {
                    id.lemma_view();
                    if chunk_fits(self@, data@.len(), stored@.len()) {
                        lemma_with_chunk(self@, id@, data@.len(), stored@);
                    }
                }
                self.add_compressed(id, data.len(), stored)
            },
        }
    }

    /// Reads a chunk: finds its entry, cuts its range out of the data region
    /// and inflates it.
    ///
    /// A directory entry that points outside the data region makes the pack
    /// corrupt and every read fail, whichever chunk is asked for.
    pub fn get_chunk(&self, id: &ChunkID) -> (r: core::result::Result<Vec<u8>, Error>)
        ensures
            match chunk_read(self@, id@) {
                ChunkRead::Corrupt => r matches Err(Error::CorruptedPack { id: name }) && name@
                    == self@.header.pack_id,
                ChunkRead::Missing => r matches Err(Error::ChunkNotFound { id: name }) && name@
                    == hex_lower(id@),
                ChunkRead::Garbled => r matches Err(Error::Other(_)),
                ChunkRead::Plain(plain) => r matches Ok(bytes) && bytes@ == plain,
            },
    {
        let len = self.data.len();
        let mut found: Option<usize> = None;
        let mut i: usize = 0;
        while i < self.chunks.len()
            invariant
                i <= self.chunks.len(),
                len == self.data.len(),
                forall|j: int| 0 <= j < i ==> entry_in_bounds(#[trigger] self@.chunks[j], len as nat),
                found is None ==> forall|j: int| 0 <= j < i ==> (#[trigger] self@.chunks[j]).id != id@,
                found matches Some(k) ==> k < i && is_first_entry(self@.chunks, id@, k as int),
            decreases self.chunks.len() - i,
        {
            let entry = &self.chunks[i];
            assert(entry@ == self@.chunks[i as int]);
            if entry.offset > len as u64 || entry.length as u64 > len as u64 - entry.offset {
                assert(!entry_in_bounds(self@.chunks[i as int], len as nat));
                return Err(Error::CorruptedPack { id: self.header.pack_id.clone() });
            }
            if found.is_none() && entry.id == *id {
                found = Some(i);
            }
            i += 1;
        }
        match found {
            None => Err(Error::ChunkNotFound { id: id.to_hex() }),
            Some(k) => {
                proof {
                    lemma_first_entry_is(self@.chunks, id@, k as int);
                }
                let entry = &self.chunks[k];
                assert(entry@ == self@.chunks[k as int]);
                assert(entry_in_bounds(self@.chunks[k as int], len as nat));
                let start = entry.offset as usize;
                let end = start + entry.length as usize;
                match zlib_decompress(slice_subrange(self.data.as_slice(), start, end)) {
                    Ok(plain) => Ok(plain),
                    Err(message) => Err(Error::Other(message)),
                }
            },
        }
    }

    /// Length of the data region, in bytes.
    pub fn size(&self) -> (len: usize)
        ensures
            len == self@.data.len(),
    {
        self.data.len()
    }

    /// Whether the data region has reached `max_size` bytes.
    pub fn is_full(&self, max_size: u64) -> (full: bool)
        ensures
            full == (self@.data.len() >= max_size),
    {
        self.data.len() as u64 >= max_size
    }

    /// The identifiers of the chunks, in the order of the directory.
    pub fn chunk_ids(&self) -> (ids: Vec<ChunkID>)
        ensures
            ids@.len() == self@.chunks.len(),
            forall|i: int| 0 <= i < ids@.len() ==> (#[trigger] ids@[i])@ == self@.chunks[i].id,
    {
        let mut ids: Vec<ChunkID> = Vec::new();
        let mut i: usize = 0;
        while i < self.chunks.len()
            invariant
                i <= self.chunks.len(),
                ids@.len() == i,
                forall|j: int| 0 <= j < i ==> (#[trigger] ids@[j])@ == self@.chunks[j].id,
            decreases self.chunks.len() - i,
        {
            ids.push(self.chunks[i].id);
            i += 1;
        }
        ids
    }
}

/// The three sealed blocks of a stored pack.
pub ghost struct PackFrames {
    pub header: Seq<u8>,
    pub directory: Seq<u8>,
    pub data: Seq<u8>,
}

/// The stored form of three sealed blocks: the header and the directory each
/// behind its length, the data region to the end.
pub open spec fn framed(frames: PackFrames) -> Seq<u8> {
    spec_u32_to_le_bytes(frames.header.len() as u32) + frames.header + spec_u32_to_le_bytes(
        frames.directory.len() as u32,
    ) + frames.directory + frames.data
}

/// The three blocks that `bytes` is the stored form of, if it is one.
pub open spec fn frames_of(bytes: Seq<u8>) -> Option<PackFrames> {
    if bytes.len() < 4 {
        None
    } else {
        let h = spec_u32_from_le_bytes(bytes.subrange(0, 4)) as int;
        if bytes.len() < 8 + h {
            None
        } else {
            let d = spec_u32_from_le_bytes(bytes.subrange(4 + h, 8 + h)) as int;
            if bytes.len() < 8 + h + d {
                None
            } else {
                Some(
                    PackFrames {
                        header: bytes.subrange(4, 4 + h),
                        directory: bytes.subrange(8 + h, 8 + h + d),
                        data: bytes.subrange(8 + h + d, bytes.len() as int),
                    },
                )
            }
        }
    }
}

/// The pack that a stored object opens to under `key`, if it opens: the
/// object has to be framed, each block has to open and to decode, and the
/// directory has to lie within the data region.
pub open spec fn pack_opened(key: Seq<u8>, bytes: Seq<u8>) -> Option<PackFileView> {
    match frames_of(bytes) {
        None => None,
        Some(frames) => match (
            decrypted(key, frames.header),
            decrypted(key, frames.directory),
            decrypted(key, frames.data),
        ) {
            (Some(h), Some(d), Some(data)) => match (header_decoding(h), directory_decoding(d)) {
                (Some(header), Some(chunks)) => if directory_in_bounds(chunks, data.len()) {
                    Some(PackFileView { header, chunks, data })
                } else {
                    None
                },
                _ => None,
            },
            _ => None,
        },
    }
}

/// Whether `bytes` is a stored form of `pack` under `key`: the framing of a
/// sealing of its encoded header, one of its encoded directory and one of
/// its data region, whatever nonces were drawn.
pub open spec fn is_pack_encoding(key: Seq<u8>, pack: PackFileView, bytes: Seq<u8>) -> bool {
    exists|frames: PackFrames|
        {
            &&& #[trigger] framed(frames) == bytes
            &&& frames.header.len() <= u32::MAX
            &&& frames.directory.len() <= u32::MAX
            &&& is_sealing(key, header_encoding(pack.header), frames.header)
            &&& is_sealing(key, directory_encoding(pack.chunks), frames.directory)
            &&& is_sealing(key, pack.data, frames.data)
        }
}

/// Whether a pack can be stored: the sealed header and directory must have
/// lengths that fit in 32 bits, and each of the three blocks must be one that
/// the cipher accepts.
pub open spec fn pack_storable(pack: PackFileView) -> bool {
    &&& header_encoding(pack.header).len() + NONCE_LEN + TAG_LEN <= u32::MAX
    &&& directory_encoding(pack.chunks).len() + NONCE_LEN + TAG_LEN <= u32::MAX
    &&& sealable_len(header_encoding(pack.header).len())
    &&& sealable_len(directory_encoding(pack.chunks).len())
    &&& sealable_len(pack.data.len())
}

/// Whether a pack is one that can be held in memory: identifiers of 32
/// bytes, and lengths that fit in 64 bits.
pub open spec fn representable(pack: PackFileView) -> bool {
    &&& ids_sized(pack.chunks)
    &&& pack.chunks.len() <= u64::MAX
    &&& encode_utf8(pack.header.pack_id).len() <= u64::MAX
}

/// Framed blocks are read back as they were framed.
pub proof fn lemma_frames_round_trip(frames: PackFrames)
    requires
        frames.header.len() <= u32::MAX,
        frames.directory.len() <= u32::MAX,
    ensures
        frames_of(framed(frames)) == Some(frames),
{
    vstd::bytes::lemma_auto_spec_u32_to_from_le_bytes();
    let bytes = framed(frames);
    let h = frames.header.len() as int;
    let d = frames.directory.len() as int;
    assert(bytes.subrange(0, 4) =~= spec_u32_to_le_bytes(h as u32));
    assert(bytes.subrange(4 + h, 8 + h) =~= spec_u32_to_le_bytes(d as u32));
    assert(bytes.subrange(4, 4 + h) =~= frames.header);
    assert(bytes.subrange(8 + h, 8 + h + d) =~= frames.directory);
    assert(bytes.subrange(8 + h + d, bytes.len() as int) =~= frames.data);
}

/// A stored pack opens to the pack that was stored: whatever `write_to`
/// returns for a pack, `read_from` gives that pack back from it, and so each
/// of its chunks reads as it did before.
pub proof fn lemma_pack_round_trip(key: Seq<u8>, pack: PackFileView, bytes: Seq<u8>)
    requires
        representable(pack),
        directory_in_bounds(pack.chunks, pack.data.len()),
        is_pack_encoding(key, pack, bytes),
    ensures
        pack_opened(key, bytes) == Some(pack),
        forall|id: Seq<u8>| chunk_read(pack_opened(key, bytes).unwrap(), id) == chunk_read(pack, id),
{
    let frames = choose|frames: PackFrames|
        {
            &&& #[trigger] framed(frames) == bytes
            &&& frames.header.len() <= u32::MAX
            &&& frames.directory.len() <= u32::MAX
            &&& is_sealing(key, header_encoding(pack.header), frames.header)
            &&& is_sealing(key, directory_encoding(pack.chunks), frames.directory)
            &&& is_sealing(key, pack.data, frames.data)
        };
    lemma_frames_round_trip(frames);
    crate::codec::lemma_header_round_trip(pack.header);
    crate::codec::lemma_directory_round_trip(pack.chunks);
}

impl PackFile {
    /// The stored form of the pack: three blocks, each sealed with a nonce of
    /// its own.
    ///
    /// The pack is stored exactly when it is storable; what comes back then
    /// opens to this pack again.
    pub fn write_to(&self, encryptor: &Encryptor) -> (r: core::result::Result<Vec<u8>, Error>)
        ensures
            r is Ok <==> pack_storable(self@),
            r matches Ok(bytes) ==> is_pack_encoding(encryptor.spec_key(), self@, bytes@),
            r matches Err(e) ==> e is Encryption || e is Other,
    {
        let header_plain = encode_header(&self.header);
        let directory_plain = encode_directory(&self.chunks);
        if header_plain.len() > u32::MAX as usize - NONCE_LEN - TAG_LEN {
            return Err(Error::Other(String::from_str("pack header too long")));
        }
        if directory_plain.len() > u32::MAX as usize - NONCE_LEN - TAG_LEN {
            return Err(Error::Other(String::from_str("pack directory too long")));
        }
        let header = match encryptor.encrypt(header_plain.as_slice()) {
            Ok(sealed) => sealed,
            Err(e) => {
                return Err(e);
            },
        };
        let directory = match encryptor.encrypt(directory_plain.as_slice()) {
            Ok(sealed) => sealed,
            Err(e) => {
                return Err(e);
            },
        };
        let data = match encryptor.encrypt(self.data.as_slice()) {
            Ok(sealed) => sealed,
            Err(e) => {
                return Err(e);
            },
        };
        let ghost frames = PackFrames { header: header@, directory: directory@, data: data@ };
        let mut out = u32_to_le_bytes(header.len() as u32);
        out.extend_from_slice(header.as_slice());
        let directory_len = u32_to_le_bytes(directory.len() as u32);
        out.extend_from_slice(directory_len.as_slice());
        out.extend_from_slice(directory.as_slice());
        out.extend_from_slice(data.as_slice());
        proof {
            assert(out@ =~= framed(frames));
        }
        Ok(out)
    }

    /// Reads a pack from its stored form.  `pack_id` is the name under which
    /// the object was fetched; it is reported where the object is corrupt.
    ///
    /// The object is corrupt where it is not framed, where one of its three
    /// blocks does not open under the key or does not decode, and where the
    /// directory points outside the data region.
    pub fn read_from(pack_id: &str, bytes: &[u8], encryptor: &Encryptor) -> (r: core::result::Result<
        PackFile,
        Error,
    >)
        ensures
            match pack_opened(encryptor.spec_key(), bytes@) {
                Some(pack) => r matches Ok(p) && p@ == pack,
                None => r matches Err(Error::CorruptedPack { id }) && id@ == pack_id@,
            },
    {
        let len = bytes.len();
        if len < 4 {
            return Err(Error::CorruptedPack { id: String::from_str(pack_id) });
        }
        let h = u32_from_le_bytes(slice_subrange(bytes, 0, 4)) as usize;
        if len - 4 < 4 || len - 8 < h {
            return Err(Error::CorruptedPack { id: String::from_str(pack_id) });
        }
        let d = u32_from_le_bytes(slice_subrange(bytes, 4 + h, 8 + h)) as usize;
        if len - 8 - h < d {
            return Err(Error::CorruptedPack { id: String::from_str(pack_id) });
        }
        let header_plain = match encryptor.decrypt(slice_subrange(bytes, 4, 4 + h)) {
            Ok(plain) => plain,
            Err(_) => {
                return Err(Error::CorruptedPack { id: String::from_str(pack_id) });
            },
        };
        let directory_plain = match encryptor.decrypt(slice_subrange(bytes, 8 + h, 8 + h + d)) {
            Ok(plain) => plain,
            Err(_) => {
                return Err(Error::CorruptedPack { id: String::from_str(pack_id) });
            },
        };
        let data = match encryptor.decrypt(slice_subrange(bytes, 8 + h + d, len)) {
            Ok(plain) => plain,
            Err(_) => {
                return Err(Error::CorruptedPack { id: String::from_str(pack_id) });
            },
        };
        let header = match decode_header(header_plain.as_slice()) {
            Some(header) => header,
            None => {
                return Err(Error::CorruptedPack { id: String::from_str(pack_id) });
            },
        };
        let chunks = match decode_directory(directory_plain.as_slice()) {
            Some(chunks) => chunks,
            None => {
                return Err(Error::CorruptedPack { id: String::from_str(pack_id) });
            },
        };
        let pack = PackFile { header, chunks, data };
        if !pack.directory_fits() {
            return Err(Error::CorruptedPack { id: String::from_str(pack_id) });
        }
        Ok(pack)
    }

    /// Whether every entry of the directory lies within the data region.
    pub fn directory_fits(&self) -> (r: bool)
        ensures
            r == directory_in_bounds(self@.chunks, self@.data.len()),
    {
        let len = self.data.len();
        let mut i: usize = 0;
        while i < self.chunks.len()
            invariant
                i <= self.chunks.len(),
                len == self.data.len(),
                forall|j: int| 0 <= j < i ==> entry_in_bounds(#[trigger] self@.chunks[j], len as nat),
            decreases self.chunks.len() - i,
        {
            let entry = &self.chunks[i];
            assert(entry@ == self@.chunks[i as int]);
            if entry.offset > len as u64 || entry.length as u64 > len as u64 - entry.offset {
                assert(!entry_in_bounds(self@.chunks[i as int], len as nat));
                return false;
            }
            i += 1;
        }
        true
    }
}

/// The name of the pack with the number `counter`: `pack-`, the number in
/// at least eight hexadecimal digits, a hyphen, and a suffix.
pub open spec fn pack_name(counter: u64, suffix: Seq<char>) -> Seq<char> {
    "pack-"@ + padded_hex(counter as nat) + "-"@ + suffix
}

/// Whether a pack has just been opened for one chunk: it has the name of
/// the pack numbered `counter`, and holds that chunk and no other.
pub open spec fn opened_with(pack: PackFileView, counter: u64, id: Seq<u8>, data: Seq<u8>) -> bool {
    &&& well_formed(pack)
    &&& exists|suffix: Seq<char>| #[trigger] pack_name(counter, suffix) == pack.header.pack_id
    &&& pack.chunks.len() == 1
    &&& pack.chunks[0].id == id
    &&& zlib_deflated(data) == Some(pack.data)
    &&& chunk_read(pack, id) == ChunkRead::Plain(data)
}

/// The view of a pack that may be absent.
pub open spec fn pack_view(pack: Option<PackFile>) -> Option<PackFileView> {
    match pack {
        Some(p) => Some(p@),
        None => None,
    }
}

/// Feeds a stream of chunks into packs, one open pack at a time.
#[derive(Debug)]
pub struct PackManager {
    current_pack: Option<PackFile>,
    max_pack_size: u64,
    pack_counter: u64,
}

impl PackManager {
    /// The pack that is open, if one is.
    pub closed spec fn spec_current(&self) -> Option<PackFileView> {
        pack_view(self.current_pack)
    }

    /// The cap on the data region of a pack.
    pub closed spec fn spec_max_size(&self) -> u64 {
        self.max_pack_size
    }

    /// The number that the next pack gets.
    pub closed spec fn spec_counter(&self) -> u64 {
        self.pack_counter
    }

    /// The invariant of the manager: the open pack is well-formed.
    pub open spec fn inv(&self) -> bool {
        self.spec_current() matches Some(pack) ==> well_formed(pack)
    }

    /// Whether the next chunk goes to a new pack: no pack is open, or the
    /// open one is full.
    pub open spec fn rolls_over(&self) -> bool {
        match self.spec_current() {
            None => true,
            Some(pack) => pack.data.len() >= self.spec_max_size(),
        }
    }

    /// A manager with no open pack.
    pub fn new(max_pack_size: u64) -> (manager: Self)
        ensures
            manager.inv(),
            manager.spec_current() is None,
            manager.spec_max_size() == max_pack_size,
            manager.spec_counter() == 0,
    {
        PackManager { current_pack: None, max_pack_size, pack_counter: 0 }
    }

    /// Whether the manager takes a chunk: the chunk has to open a new pack
    /// where the next chunk goes to one, and the number of the pack has to be
    /// free; else the open pack has to take it.
    pub open spec fn accepts(&self, id: Seq<u8>, data: Seq<u8>) -> bool {
        if self.rolls_over() {
            self.spec_counter() < u64::MAX && opens_pack(data)
        } else {
            chunk_added(self.spec_current().unwrap(), id, data) is Some
        }
    }

    /// Adds a chunk to the open pack.
    ///
    /// Where no pack is open or the open one is full, a new pack is opened
    /// for the chunk and the pack that was open is handed back, to be stored.
    /// A chunk that the manager does not take is refused, and nothing has
    /// changed: the pack that was open is still open.
    pub fn add_chunk(&mut self, chunk_id: ChunkID, data: &[u8]) -> (r: core::result::Result<
        Option<PackFile>,
        Error,
    >)
        requires
            old(self).inv(),
        ensures
            final(self).inv(),
            final(self).spec_max_size() == old(self).spec_max_size(),
            r is Ok <==> old(self).accepts(chunk_id@, data@),
            r is Err ==> {
                &&& final(self).spec_current() == old(self).spec_current()
                &&& final(self).spec_counter() == old(self).spec_counter()
            },
            r matches Ok(finished) ==> if old(self).rolls_over() {
                &&& pack_view(finished) == old(self).spec_current()
                &&& final(self).spec_counter() == old(self).spec_counter() + 1
                &&& final(self).spec_current() matches Some(pack) && opened_with(
                    pack,
                    old(self).spec_counter(),
                    chunk_id@,
                    data@,
                )
            } else {
                &&& finished is None
                &&& final(self).spec_counter() == old(self).spec_counter()
                &&& final(self).spec_current() == chunk_added(
                    old(self).spec_current().unwrap(),
                    chunk_id@,
                    data@,
                )
                &&& final(self).spec_current() matches Some(pack) && old(
                    self,
                ).spec_current() matches Some(before) && (!directory_holds(
                    before.chunks,
                    chunk_id@,
                ) ==> {
                    &&& chunk_read(pack, chunk_id@) == ChunkRead::Plain(data@)
                    &&& forall|other: Seq<u8>|
                        other != chunk_id@ ==> chunk_read(pack, other) == chunk_read(before, other)
                })
            },
    {
        let rollover = match &self.current_pack {
            None => true,
            Some(pack) => pack.is_full(self.max_pack_size),
        };
        if rollover {
            if self.pack_counter == u64::MAX {
                return Err(Error::Other(String::from_str("pack counter exhausted")));
            }
            let suffix = crate::types::fresh_uuid();
            let name = String::from_str("pack-").concat(
                counter_digits(self.pack_counter).as_str(),
            ).concat("-").concat(suffix.as_str());
            assert(name@ == pack_name(self.pack_counter, suffix@));
            let mut pack = PackFile::new(name);
            let ghost empty = pack@;
            assert(!directory_holds(empty.chunks, chunk_id@));
            match pack.add_chunk(chunk_id, data) {
                Err(e) => Err(e),
                Ok(()) => {
                    proof {
                        assert(pack@.data =~= zlib_deflated(data@).unwrap());
                    }
                    let finished = self.current_pack.take();
                    self.current_pack = Some(pack);
                    self.pack_counter = self.pack_counter + 1;
                    Ok(finished)
                },
            }
        } else {
            let mut pack = self.current_pack.take().unwrap();
            let outcome = pack.add_chunk(chunk_id, data);
            self.current_pack = Some(pack);
            match outcome {
                Ok(()) => Ok(None),
                Err(e) => Err(e),
            }
        }
    }

    /// Closes the open pack and hands it back, to be stored.
    pub fn finish_current_pack(&mut self) -> (finished: Option<PackFile>)
        requires
            old(self).inv(),
        ensures
            final(self).inv(),
            pack_view(finished) == old(self).spec_current(),
            finished matches Some(pack) ==> well_formed(pack@),
            final(self).spec_current() is None,
            final(self).spec_counter() == old(self).spec_counter(),
            final(self).spec_max_size() == old(self).spec_max_size(),
    {
        self.current_pack.take()
    }
}

} // verus!
