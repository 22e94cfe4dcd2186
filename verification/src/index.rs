//! The in-memory index: where each chunk lies, and what is known of each
//! pack.
//!
//! An index is a pair of maps.  Each is kept as a list of entries in the
//! order of arrival, in which a later entry for a key replaces an earlier
//! one: vstd specifies std's hash map for keys that are integers, and
//! neither an identifier nor a name is one, so a lookup in such a map could
//! not be proved.  What is stored in the repository is authoritative; an
//! index in memory answers without a round trip.

use crate::types::{ChunkID, ChunkMetadata, ChunkMetadataView};
use vstd::prelude::*;

verus! {

/// What is known of a pack.
#[derive(Debug)]
pub struct PackInfo {
    pub id: String,
    pub size: u64,
    pub chunk_count: u32,
}

/// What a `PackInfo` holds, as plain values.
pub ghost struct PackInfoView {
    pub id: Seq<char>,
    pub size: u64,
    pub chunk_count: u32,
}

impl View for PackInfo {
    type V = PackInfoView;

    open spec fn view(&self) -> PackInfoView {
        PackInfoView { id: self.id@, size: self.size, chunk_count: self.chunk_count }
    }
}

impl Clone for PackInfo {
    fn clone(&self) -> (copy: Self)
        ensures
            copy@ == self@,
    {
        PackInfo { id: self.id.clone(), size: self.size, chunk_count: self.chunk_count }
    }
}

/// The map that a list of chunk entries stands for: each entry under its
/// chunk's identifier, a later entry in place of an earlier one.
pub open spec fn chunk_map(entries: Seq<ChunkMetadataView>) -> Map<Seq<u8>, ChunkMetadataView>
    decreases entries.len(),
{
    if entries.len() == 0 {
        Map::empty()
    } else {
        chunk_map(entries.drop_last()).insert(entries.last().id, entries.last())
    }
}

/// The map that a list of pack entries stands for.
pub open spec fn pack_map(entries: Seq<PackInfoView>) -> Map<Seq<char>, PackInfoView>
    decreases entries.len(),
{
    if entries.len() == 0 {
        Map::empty()
    } else {
        pack_map(entries.drop_last()).insert(entries.last().id, entries.last())
    }
}

/// The views of a list of chunk entries.
pub open spec fn chunk_entry_views(entries: Seq<ChunkMetadata>) -> Seq<ChunkMetadataView> {
    Seq::new(entries.len(), |i: int| entries[i]@)
}

/// The views of a list of pack entries.
pub open spec fn pack_entry_views(entries: Seq<PackInfo>) -> Seq<PackInfoView> {
    Seq::new(entries.len(), |i: int| entries[i]@)
}

/// The map of two lists joined is the map of the first with the map of the
/// second laid over it.
pub proof fn lemma_chunk_map_append(first: Seq<ChunkMetadataView>, second: Seq<ChunkMetadataView>)
    ensures
        chunk_map(first + second) == chunk_map(first).union_prefer_right(chunk_map(second)),
    decreases second.len(),
{
    if second.len() == 0 {
        assert(first + second =~= first);
        assert(chunk_map(first).union_prefer_right(chunk_map(second)) =~= chunk_map(first));
    } else {
        lemma_chunk_map_append(first, second.drop_last());
        assert((first + second).drop_last() =~= first + second.drop_last());
        assert((first + second).last() == second.last());
        assert(chunk_map(first + second) =~= chunk_map(first).union_prefer_right(
            chunk_map(second),
        ));
    }
}

/// The map of two lists joined is the map of the first with the map of the
/// second laid over it.
pub proof fn lemma_pack_map_append(first: Seq<PackInfoView>, second: Seq<PackInfoView>)
    ensures
        pack_map(first + second) == pack_map(first).union_prefer_right(pack_map(second)),
    decreases second.len(),
{
    if second.len() == 0 {
        assert(first + second =~= first);
        assert(pack_map(first).union_prefer_right(pack_map(second)) =~= pack_map(first));
    } else {
        lemma_pack_map_append(first, second.drop_last());
        assert((first + second).drop_last() =~= first + second.drop_last());
        assert((first + second).last() == second.last());
        assert(pack_map(first + second) =~= pack_map(first).union_prefer_right(pack_map(second)));
    }
}

/// An entry of the list that no later entry replaces is what the map holds
/// for its key; a key of no entry is not in the map.
proof fn lemma_chunk_map_lookup(entries: Seq<ChunkMetadataView>, id: Seq<u8>, from: int)
    requires
        0 <= from <= entries.len(),
        forall|j: int| from <= j < entries.len() ==> (#[trigger] entries[j]).id != id,
    ensures
        from > 0 && entries[from - 1].id == id ==> chunk_map(entries).contains_key(id) && chunk_map(
            entries,
        )[id] == entries[from - 1],
        from == 0 ==> !chunk_map(entries).contains_key(id),
        chunk_map(entries).contains_key(id) == chunk_map(entries.subrange(0, from)).contains_key(id),
        chunk_map(entries).contains_key(id) ==> chunk_map(entries)[id] == chunk_map(
            entries.subrange(0, from),
        )[id],
    decreases entries.len() - from,
{
    if from == entries.len() {
        assert(entries.subrange(0, from) =~= entries);
    } else {
        let front = entries.drop_last();
        lemma_chunk_map_lookup(front, id, from);
        assert(front.subrange(0, from) =~= entries.subrange(0, from));
        assert(entries.last() == entries[entries.len() - 1]);
    }
    if from > 0 {
        let head = entries.subrange(0, from);
        assert(head.last() == entries[from - 1]);
    } else {
        assert(entries.subrange(0, 0) =~= Seq::<ChunkMetadataView>::empty());
    }
}

/// An index: the location of each chunk and what is known of each pack.
#[derive(Debug)]
pub struct Index {
    chunks: Vec<ChunkMetadata>,
    packs: Vec<PackInfo>,
}

/// What an `Index` holds: two maps.
pub ghost struct IndexView {
    pub chunks: Map<Seq<u8>, ChunkMetadataView>,
    pub packs: Map<Seq<char>, PackInfoView>,
}

/// The index that `first` becomes when `second` is merged into it: where
/// both have an entry, that of `second` stays.
pub open spec fn merged(first: IndexView, second: IndexView) -> IndexView {
    IndexView {
        chunks: first.chunks.union_prefer_right(second.chunks),
        packs: first.packs.union_prefer_right(second.packs),
    }
}

impl View for Index {
    type V = IndexView;

    closed spec fn view(&self) -> IndexView {
        IndexView {
            chunks: chunk_map(chunk_entry_views(self.chunks@)),
            packs: pack_map(pack_entry_views(self.packs@)),
        }
    }
}

impl Clone for Index {
    fn clone(&self) -> (copy: Self)
        ensures
            copy@ == self@,
    {
        let chunks = self.chunks.clone();
        let packs = self.packs.clone();
        assert(chunk_entry_views(chunks@) =~= chunk_entry_views(self.chunks@));
        assert(pack_entry_views(packs@) =~= pack_entry_views(self.packs@));
        Index { chunks, packs }
    }
}

impl Default for Index {
    fn default() -> (index: Self)
        ensures
            index@.chunks == Map::<Seq<u8>, ChunkMetadataView>::empty(),
            index@.packs == Map::<Seq<char>, PackInfoView>::empty(),
    {
        Index::new()
    }
}

impl Index {
    /// An index without entries.
    pub fn new() -> (index: Self)
        ensures
            index@.chunks == Map::<Seq<u8>, ChunkMetadataView>::empty(),
            index@.packs == Map::<Seq<char>, PackInfoView>::empty(),
    {
        let index = Index { chunks: Vec::new(), packs: Vec::new() };
        assert(chunk_entry_views(index.chunks@) =~= Seq::<ChunkMetadataView>::empty());
        assert(pack_entry_views(index.packs@) =~= Seq::<PackInfoView>::empty());
        index
    }

    /// An index with the entries given, a later entry in place of an earlier
    /// one for the same key.
    pub fn from_entries(chunks: Vec<ChunkMetadata>, packs: Vec<PackInfo>) -> (index: Self)
        ensures
            index@.chunks == chunk_map(chunk_entry_views(chunks@)),
            index@.packs == pack_map(pack_entry_views(packs@)),
    {
        Index { chunks, packs }
    }

    /// The chunk entries, in the order of arrival.
    pub fn chunk_entries(&self) -> (entries: &Vec<ChunkMetadata>)
        ensures
            chunk_map(chunk_entry_views(entries@)) == self@.chunks,
    {
        &self.chunks
    }

    /// The pack entries, in the order of arrival.
    pub fn pack_entries(&self) -> (entries: &Vec<PackInfo>)
        ensures
            pack_map(pack_entry_views(entries@)) == self@.packs,
    {
        &self.packs
    }

    /// Records where a chunk lies, in place of what was recorded for it.
    pub fn add_chunk(&mut self, metadata: ChunkMetadata)
        ensures
            final(self)@.chunks == old(self)@.chunks.insert(metadata@.id, metadata@),
            final(self)@.packs == old(self)@.packs,
    {
        let ghost entry = metadata@;
        self.chunks.push(metadata);
        proof {
            let views = chunk_entry_views(self.chunks@);
            assert(views.drop_last() =~= chunk_entry_views(old(self).chunks@));
            assert(views.last() == entry);
        }
    }

    /// Records a pack, in place of what was recorded under its identifier.
    pub fn add_pack(&mut self, info: PackInfo)
        ensures
            final(self)@.packs == old(self)@.packs.insert(info@.id, info@),
            final(self)@.chunks == old(self)@.chunks,
    {
        let ghost entry = info@;
        self.packs.push(info);
        proof {
            let views = pack_entry_views(self.packs@);
            assert(views.drop_last() =~= pack_entry_views(old(self).packs@));
            assert(views.last() == entry);
        }
    }

    /// Whether the index knows the chunk.
    pub fn has_chunk(&self, id: &ChunkID) -> (r: bool)
        ensures
            r == self@.chunks.contains_key(id@),
    {
        self.get_chunk(id).is_some()
    }

    /// Where the chunk lies, if the index knows it.
    pub fn get_chunk(&self, id: &ChunkID) -> (r: Option<&ChunkMetadata>)
        ensures
            r is Some == self@.chunks.contains_key(id@),
            r matches Some(metadata) ==> metadata@ == self@.chunks[id@],
    {
        let ghost views = chunk_entry_views(self.chunks@);
        let mut i: usize = self.chunks.len();
        while i > 0
            invariant
                i <= self.chunks.len(),
                views == chunk_entry_views(self.chunks@),
                forall|j: int| i <= j < views.len() ==> (#[trigger] views[j]).id != id@,
            decreases i,
        {
            if self.chunks[i - 1].id == *id {
                proof {
                    assert(views[i - 1] == self.chunks@[i - 1]@);
                    lemma_chunk_map_lookup(views, id@, i as int);
                }
                return Some(&self.chunks[i - 1]);
            }
            assert(views[i - 1] == self.chunks@[i - 1]@);
            i -= 1;
        }
        proof {
            lemma_chunk_map_lookup(views, id@, 0);
        }
        None
    }

    /// Merges another index into this one: where both have an entry, that of
    /// `other` stays.
    pub fn merge(&mut self, other: Index)
        ensures
            final(self)@ == merged(old(self)@, other@),
    {
        let mut other = other;
        proof {
            lemma_chunk_map_append(
                chunk_entry_views(self.chunks@),
                chunk_entry_views(other.chunks@),
            );
            lemma_pack_map_append(pack_entry_views(self.packs@), pack_entry_views(other.packs@));
            assert(chunk_entry_views(self.chunks@ + other.chunks@) =~= chunk_entry_views(
                self.chunks@,
            ) + chunk_entry_views(other.chunks@));
            assert(pack_entry_views(self.packs@ + other.packs@) =~= pack_entry_views(self.packs@)
                + pack_entry_views(other.packs@));
        }
        self.chunks.append(&mut other.chunks);
        self.packs.append(&mut other.packs);
    }
}

/// The index without entries.
pub open spec fn empty_index() -> IndexView {
    IndexView { chunks: Map::empty(), packs: Map::empty() }
}

/// The indexes merged in order into an empty one.
pub open spec fn merged_all(indexes: Seq<IndexView>) -> IndexView
    decreases indexes.len(),
{
    if indexes.len() == 0 {
        empty_index()
    } else {
        merged(merged_all(indexes.drop_last()), indexes.last())
    }
}

/// The views of a list of indexes.
pub open spec fn index_views(indexes: Seq<Index>) -> Seq<IndexView> {
    Seq::new(indexes.len(), |i: int| indexes[i]@)
}

/// Several indexes and their union, which answers the lookups.
pub struct IndexManager {
    indices: Vec<Index>,
    master_index: Index,
}

impl View for IndexManager {
    type V = IndexView;

    /// What the manager answers from: the union of its indexes.
    closed spec fn view(&self) -> IndexView {
        self.master_index@
    }
}

impl Default for IndexManager {
    fn default() -> (manager: Self)
        ensures
            manager.inv(),
            manager@ == empty_index(),
            manager.spec_indices().len() == 0,
    {
        IndexManager::new()
    }
}

impl IndexManager {
    /// The indexes that were added, in order.
    pub closed spec fn spec_indices(&self) -> Seq<IndexView> {
        index_views(self.indices@)
    }

    /// The invariant of the manager: it answers from the union of its
    /// indexes, a later one laid over an earlier one.
    pub open spec fn inv(&self) -> bool {
        self@ == merged_all(self.spec_indices())
    }

    /// A manager without indexes.
    pub fn new() -> (manager: Self)
        ensures
            manager.inv(),
            manager@ == empty_index(),
            manager.spec_indices().len() == 0,
    {
        let manager = IndexManager { indices: Vec::new(), master_index: Index::new() };
        assert(manager@ == empty_index());
        manager
    }

    /// Adds an index and lays it over the union.
    pub fn add_index(&mut self, index: Index)
        requires
            old(self).inv(),
        ensures
            final(self).inv(),
            final(self)@ == merged(old(self)@, index@),
            final(self).spec_indices() == old(self).spec_indices().push(index@),
    {
        let ghost added = index@;
        self.master_index.merge(index.clone());
        self.indices.push(index);
        proof {
            let views = index_views(self.indices@);
            assert(views =~= old(self).spec_indices().push(added));
            assert(views.drop_last() =~= old(self).spec_indices());
            assert(views.last() == added);
        }
    }

    /// Whether any of the indexes knows the chunk.
    pub fn has_chunk(&self, id: &ChunkID) -> (r: bool)
        ensures
            r == self@.chunks.contains_key(id@),
    {
        self.master_index.has_chunk(id)
    }

    /// Where the chunk lies, by the latest index that knows it.
    pub fn get_chunk(&self, id: &ChunkID) -> (r: Option<&ChunkMetadata>)
        ensures
            r is Some == self@.chunks.contains_key(id@),
            r matches Some(metadata) ==> metadata@ == self@.chunks[id@],
    {
        self.master_index.get_chunk(id)
    }

    /// Replaces the indexes by one that holds their union, and returns a
    /// copy of it.  What the manager answers does not change.
    pub fn compact(&mut self) -> (compacted: Index)
        requires
            old(self).inv(),
        ensures
            final(self).inv(),
            final(self)@ == old(self)@,
            compacted@ == old(self)@,
            final(self).spec_indices() == seq![old(self)@],
    {
        let ghost views = index_views(self.indices@);
        let mut compacted = Index::new();
        let mut i: usize = 0;
        assert(views.subrange(0, 0) =~= Seq::<IndexView>::empty());
        assert(compacted@ == empty_index());
        while i < self.indices.len()
            invariant
                i <= self.indices.len(),
                views == index_views(self.indices@),
                compacted@ == merged_all(views.subrange(0, i as int)),
            decreases self.indices.len() - i,
        {
            proof {
                let head = views.subrange(0, i + 1);
                assert(head.drop_last() =~= views.subrange(0, i as int));
                assert(head.last() == self.indices@[i as int]@);
            }
            compacted.merge(self.indices[i].clone());
            i += 1;
        }
        assert(views.subrange(0, views.len() as int) =~= views);
        let copy = compacted.clone();
        let master = compacted.clone();
        self.indices.clear();
        self.indices.push(compacted);
        self.master_index = master;
        proof {
            let now = index_views(self.indices@);
            assert(now =~= seq![old(self)@]);
            assert(now.drop_last() =~= Seq::<IndexView>::empty());
            assert(now.last() == old(self)@);
            assert(merged(empty_index(), old(self)@).chunks =~= old(self)@.chunks);
            assert(merged(empty_index(), old(self)@).packs =~= old(self)@.packs);
            assert(merged(empty_index(), old(self)@) == old(self)@);
            assert(merged_all(now.drop_last()) == empty_index());
            assert(merged_all(now) == merged(merged_all(now.drop_last()), now.last()));
        }
        copy
    }
}

} // verus!
