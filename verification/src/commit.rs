//! The commit path of a backup: which chunks go into packs, and in which
//! order the objects of a commit are put into the blob store.
//!
//! A session stages each novel chunk once.  A chunk is novel where neither
//! the repository's index nor the session itself knows it.  The objects of a
//! finished pack go out pack first, index entries after it, so that no index
//! entry ever points at a pack that is not there; the tree and then the
//! snapshot go out last.

use crate::chunker::{Chunk, ChunkView, chunk_views};
use crate::error::Error;
use crate::idset::ChunkSet;
use crate::pack::{
    ChunkRead, PackFile, PackFileView, PackManager, chunk_added, chunk_read, directory_holds,
    is_pack_encoding, opened_with, opens_pack, pack_view, well_formed,
};
use crate::repository::{
    BlobWrite, ChunkLocation, ChunkLocationView, Repository, index_path_of, pack_path_of,
};
use crate::types::{ChunkID, ChunkRef, blake3_digest};
use vstd::prelude::*;
use vstd::string::StringExecFns;

verus! {

/// The identifiers in a list, as byte strings.
pub open spec fn id_views(ids: Seq<ChunkID>) -> Seq<Seq<u8>> {
    Seq::new(ids.len(), |i: int| ids[i]@)
}

/// Whether no identifier occurs twice in the list.
pub open spec fn no_repeats(ids: Seq<Seq<u8>>) -> bool {
    forall|i: int, j: int| 0 <= i < j < ids.len() ==> ids[i] != ids[j]
}

/// Whether every chunk of the open pack is among the staged ones.
pub open spec fn pack_is_staged(pack: Option<PackFileView>, staged: Seq<Seq<u8>>) -> bool {
    pack matches Some(p) ==> forall|i: int|
        0 <= i < p.chunks.len() ==> staged.contains((#[trigger] p.chunks[i]).id)
}

/// One backup session: the pack manager and the chunks staged so far.
pub struct CommitSession {
    manager: PackManager,
    staged: Vec<ChunkID>,
    seen: ChunkSet,
}

/// What staging the chunks of a file came to.
pub struct StagedFile {
    /// The references for the file's node, one for each chunk that was
    /// processed, in order.
    pub refs: Vec<ChunkRef>,
    /// The packs that were closed on the way, to be stored.
    pub finished: Vec<PackFile>,
    /// Why the file could not be staged to its end, if it could not.
    pub failure: Option<Error>,
}

/// The views of a list of packs.
pub open spec fn pack_views(packs: Seq<PackFile>) -> Seq<PackFileView> {
    Seq::new(packs.len(), |i: int| packs[i]@)
}

impl CommitSession {
    /// The chunks staged in this session, in the order of staging.
    pub closed spec fn spec_staged(&self) -> Seq<Seq<u8>> {
        id_views(self.staged@)
    }

    /// The open pack, if one is open.
    pub closed spec fn spec_current(&self) -> Option<PackFileView> {
        self.manager.spec_current()
    }

    /// The number that the next pack gets.
    pub closed spec fn spec_counter(&self) -> u64 {
        self.manager.spec_counter()
    }

    /// The cap on the data region of a pack.
    pub closed spec fn spec_max_size(&self) -> u64 {
        self.manager.spec_max_size()
    }

    /// Whether the next novel chunk goes to a new pack: no pack is open, or
    /// the open one is full.
    pub open spec fn rolls_over(&self) -> bool {
        match self.spec_current() {
            None => true,
            Some(pack) => pack.data.len() >= self.spec_max_size(),
        }
    }

    /// Whether a novel chunk can be staged: where no pack is open or the
    /// open one is full, the chunk has to open a new pack and the number of
    /// the pack has to be free; else the open pack has to take it.
    pub open spec fn accepts(&self, id: Seq<u8>, data: Seq<u8>) -> bool {
        if self.rolls_over() {
            self.spec_counter() < u64::MAX && opens_pack(data)
        } else {
            chunk_added(self.spec_current().unwrap(), id, data) is Some
        }
    }

    /// The invariant of a session: the open pack is well-formed and holds
    /// staged chunks only, and no chunk was staged twice.
    pub closed spec fn inv(&self) -> bool {
        &&& self.manager.inv()
        &&& no_repeats(self.spec_staged())
        &&& pack_is_staged(self.spec_current(), self.spec_staged())
        &&& forall|id: Seq<u8>| self.seen@.contains(id) <==> self.spec_staged().contains(id)
    }

    /// Whether the session or the repository's index knows the chunk.
    pub open spec fn knows(&self, id: Seq<u8>, stored: bool) -> bool {
        stored || self.spec_staged().contains(id)
    }

    /// No chunk is staged twice in a session.
    pub proof fn lemma_staged_once(&self)
        requires
            self.inv(),
        ensures
            no_repeats(self.spec_staged()),
    {
    }

    /// A session without staged chunks, for packs of at most `max_pack_size`
    /// bytes of compressed data.
    pub fn new(max_pack_size: u64) -> (session: Self)
        ensures
            session.inv(),
            session.spec_staged().len() == 0,
            session.spec_current() is None,
            session.spec_counter() == 0,
            session.spec_max_size() == max_pack_size,
    {
        CommitSession {
            manager: PackManager::new(max_pack_size),
            staged: Vec::new(),
            seen: ChunkSet::new(),
        }
    }

    /// Whether the session has staged the chunk.
    pub fn has_staged(&self, id: &ChunkID) -> (r: bool)
        requires
            self.inv(),
        ensures
            r == self.spec_staged().contains(id@),
    {
        self.seen.contains(id)
    }

    /// Stages one chunk.  `stored` tells whether the repository's index
    /// already has it.
    ///
    /// A chunk that is known is left out.  A novel chunk goes into the open
    /// pack, which then holds it beside all that it held; or, where no pack
    /// is open or the open one is full, into a new pack, and the pack that
    /// was open is handed back as it was, to be stored.  A chunk that cannot
    /// be staged is refused, and the session is as it was.
    pub fn stage_chunk(&mut self, id: ChunkID, data: &[u8], stored: bool) -> (r: core::result::Result<
        Option<PackFile>,
        Error,
    >)
        requires
            old(self).inv(),
        ensures
            final(self).inv(),
            final(self).spec_max_size() == old(self).spec_max_size(),
            r is Ok <==> old(self).knows(id@, stored) || old(self).accepts(id@, data@),
            old(self).knows(id@, stored) ==> {
                &&& r matches Ok(None)
                &&& final(self).spec_staged() == old(self).spec_staged()
                &&& final(self).spec_current() == old(self).spec_current()
                &&& final(self).spec_counter() == old(self).spec_counter()
            },
            !old(self).knows(id@, stored) ==> match r {
                Ok(finished) => {
                    &&& final(self).spec_staged() == old(self).spec_staged().push(id@)
                    &&& final(self).spec_current() matches Some(pack) && chunk_read(pack, id@)
                        == ChunkRead::Plain(data@)
                    &&& finished matches Some(closed) ==> well_formed(closed@)
                    &&& if old(self).rolls_over() {
                        &&& pack_view(finished) == old(self).spec_current()
                        &&& final(self).spec_counter() == old(self).spec_counter() + 1
                        &&& final(self).spec_current() matches Some(pack) && opened_with(
                            pack,
                            old(self).spec_counter(),
                            id@,
                            data@,
                        )
                    } else {
                        &&& finished is None
                        &&& final(self).spec_counter() == old(self).spec_counter()
                        &&& final(self).spec_current() == chunk_added(
                            old(self).spec_current().unwrap(),
                            id@,
                            data@,
                        )
                        &&& !directory_holds(old(self).spec_current().unwrap().chunks, id@)
                        &&& forall|other: Seq<u8>|
                            other != id@ ==> chunk_read(
                                final(self).spec_current().unwrap(),
                                other,
                            ) == chunk_read(old(self).spec_current().unwrap(), other)
                    }
                },
                Err(_) => {
                    &&& final(self).spec_staged() == old(self).spec_staged()
                    &&& final(self).spec_current() == old(self).spec_current()
                    &&& final(self).spec_counter() == old(self).spec_counter()
                },
            },
    {
        if stored || self.has_staged(&id) {
            return Ok(None);
        }
        let ghost before = self.spec_staged();
        let ghost open = self.spec_current();
        assert(open matches Some(p) ==> !directory_holds(p.chunks, id@)) by {
            if let Some(p) = open {
                if directory_holds(p.chunks, id@) {
                    let i = choose|i: int| 0 <= i < p.chunks.len() && (#[trigger] p.chunks[i]).id == id@;
                    assert(before.contains(p.chunks[i].id));
                }
            }
        }
        match self.manager.add_chunk(id, data) {
            Err(e) => Err(e),
            Ok(finished) => {
                self.staged.push(id);
                self.seen.insert(id);
                proof {
                    let now = self.spec_staged();
                    assert(now =~= before.push(id@));
                    assert forall|other: Seq<u8>| self.seen@.contains(other) <==> now.contains(
                        other,
                    ) by {
                        if before.contains(other) {
                            let k = choose|k: int| 0 <= k < before.len() && before[k] == other;
                            assert(now[k] == other);
                        }
                        if other == id@ {
                            assert(now[now.len() - 1] == other);
                        }
                        if now.contains(other) {
                            let k = choose|k: int| 0 <= k < now.len() && now[k] == other;
                            if k < before.len() {
                                assert(before[k] == other);
                            }
                        }
                    }
                    assert forall|i: int, j: int| 0 <= i < j < now.len() implies now[i] != now[j] by {
                        if j == now.len() - 1 {
                            assert(before[i] == now[i]);
                            assert(before.contains(before[i]));
                        } else {
                            assert(before[i] == now[i] && before[j] == now[j]);
                        }
                    }
                    let pack = self.spec_current().unwrap();
                    assert forall|i: int| 0 <= i < pack.chunks.len() implies now.contains(
                        (#[trigger] pack.chunks[i]).id,
                    ) by {
                        if pack.chunks[i].id == id@ {
                            assert(now[now.len() - 1] == id@);
                        } else {
                            let p = open.unwrap();
                            assert(Some(pack) == chunk_added(p, id@, data@));
                            assert(pack.chunks[i] == p.chunks[i]);
                            let k = choose|k: int| 0 <= k < before.len() && before[k] == p.chunks[i].id;
                            assert(now[k] == before[k]);
                        }
                    }
                }
                Ok(finished)
            },
        }
    }

    /// Closes the open pack and hands it back, to be stored.
    pub fn finish(&mut self) -> (finished: Option<PackFile>)
        requires
            old(self).inv(),
        ensures
            final(self).inv(),
            pack_view(finished) == old(self).spec_current(),
            finished matches Some(pack) ==> well_formed(pack@),
            final(self).spec_current() is None,
            final(self).spec_staged() == old(self).spec_staged(),
            final(self).spec_counter() == old(self).spec_counter(),
            final(self).spec_max_size() == old(self).spec_max_size(),
    {
        self.manager.finish_current_pack()
    }
}

/// Whether the session or the repository's index knows every one of the
/// chunks.
pub open spec fn all_known(session: &CommitSession, chunks: Seq<ChunkView>, stored: Seq<bool>) -> bool {
    forall|i: int|
        0 <= i < chunks.len() ==> session.knows(blake3_digest((#[trigger] chunks[i]).data), stored[i])
}

/// Whether `refs` are the references to the first chunks of `chunks`: each
/// names its chunk by the digest of the chunk's bytes and records their
/// length.
pub open spec fn refer_to(refs: Seq<ChunkRef>, chunks: Seq<ChunkView>) -> bool {
    &&& refs.len() <= chunks.len()
    &&& forall|i: int|
        0 <= i < refs.len() ==> {
            &&& (#[trigger] refs[i]).id@ == blake3_digest(chunks[i].data)
            &&& refs[i].length == chunks[i].data.len()
            &&& refs[i].offset == 0
        }
}

/// Whether the chunk `id` reads as `data` from one of the packs that were
/// closed or from the open pack.
pub open spec fn held(packs: Seq<PackFileView>, open: Option<PackFileView>, id: Seq<u8>, data: Seq<u8>) -> bool {
    ||| exists|k: int|
        0 <= k < packs.len() && chunk_read(#[trigger] packs[k], id) == ChunkRead::Plain(data)
    ||| open matches Some(pack) && chunk_read(pack, id) == ChunkRead::Plain(data)
}

/// Whether every chunk that reads from `before` reads as the same bytes
/// from one of the packs that were closed or from the open pack: the pack
/// is among those closed, or is the open one with more in it.
pub open spec fn reads_kept(before: PackFileView, packs: Seq<PackFileView>, open: Option<PackFileView>) -> bool {
    forall|id: Seq<u8>|
        (#[trigger] chunk_read(before, id)) is Plain ==> held(
            packs,
            open,
            id,
            chunk_read(before, id)->Plain_0,
        )
}

/// Whether the chunk of place `i` lies in the packs: its identifier reads,
/// from a pack that was closed or from the open one, as the bytes of the
/// first chunk of the file that was staged under that identifier, which is
/// the chunk itself or one before it.
pub open spec fn chunk_lies_in(
    chunks: Seq<ChunkView>,
    i: int,
    packs: Seq<PackFileView>,
    open: Option<PackFileView>,
) -> bool {
    exists|j: int|
        0 <= j <= i && blake3_digest(#[trigger] chunks[j].data) == blake3_digest(chunks[i].data)
            && held(packs, open, blake3_digest(chunks[i].data), chunks[j].data)
}

/// Where no two chunks of the file up to place `i` share an identifier
/// without sharing their bytes, a chunk that lies in the packs reads from
/// them as its own bytes.
pub proof fn lemma_lies_in_as_itself(
    chunks: Seq<ChunkView>,
    i: int,
    packs: Seq<PackFileView>,
    open: Option<PackFileView>,
)
    requires
        0 <= i < chunks.len(),
        chunk_lies_in(chunks, i, packs, open),
        forall|j: int|
            0 <= j <= i && blake3_digest(#[trigger] chunks[j].data) == blake3_digest(chunks[i].data)
                ==> chunks[j].data == chunks[i].data,
    ensures
        held(packs, open, blake3_digest(chunks[i].data), chunks[i].data),
{
    let j = choose|j: int|
        0 <= j <= i && blake3_digest(#[trigger] chunks[j].data) == blake3_digest(chunks[i].data)
            && held(packs, open, blake3_digest(chunks[i].data), chunks[j].data);
    assert(chunks[j].data == chunks[i].data);
}

/// What one step of staging does to the packs: nothing; or the open pack
/// takes the chunk `added` and reads as before for every other chunk; or the
/// open pack, if there was one, joins the closed ones.
pub open spec fn staging_step(
    packs: Seq<PackFileView>,
    open: Option<PackFileView>,
    later_packs: Seq<PackFileView>,
    later_open: Option<PackFileView>,
    added: Seq<u8>,
) -> bool {
    ||| later_packs == packs && later_open == open
    ||| {
        &&& later_packs == packs
        &&& open matches Some(before)
        &&& later_open matches Some(after)
        &&& forall|other: Seq<u8>|
            other != added ==> #[trigger] chunk_read(after, other) == chunk_read(before, other)
    }
    ||| open matches Some(before) && later_packs == packs.push(before)
    ||| open is None && later_packs == packs
}

/// A step of staging loses no chunk: what read from the packs before it
/// reads as the same bytes after it.
proof fn lemma_step_keeps(
    packs: Seq<PackFileView>,
    open: Option<PackFileView>,
    later_packs: Seq<PackFileView>,
    later_open: Option<PackFileView>,
    added: Seq<u8>,
    id: Seq<u8>,
    data: Seq<u8>,
)
    requires
        staging_step(packs, open, later_packs, later_open, added),
        held(packs, open, id, data),
        open matches Some(before) && directory_holds(before.chunks, id) ==> id != added,
    ensures
        held(later_packs, later_open, id, data),
{
    if exists|k: int| 0 <= k < packs.len() && chunk_read(#[trigger] packs[k], id) == ChunkRead::Plain(data) {
        let k = choose|k: int|
            0 <= k < packs.len() && chunk_read(#[trigger] packs[k], id) == ChunkRead::Plain(data);
        if later_packs == packs {
            assert(chunk_read(later_packs[k], id) == ChunkRead::Plain(data));
        } else {
            assert(later_packs[k] == packs[k]);
            assert(chunk_read(later_packs[k], id) == ChunkRead::Plain(data));
        }
    } else {
        let before = open.unwrap();
        assert(chunk_read(before, id) == ChunkRead::Plain(data));
        assert(directory_holds(before.chunks, id));
        if later_packs == packs && later_open == open {
        } else if later_packs == packs && later_open is Some && open is Some && (forall|other: Seq<u8>|
            other != added ==> #[trigger] chunk_read(later_open.unwrap(), other) == chunk_read(
                before,
                other,
            )) {
            assert(chunk_read(later_open.unwrap(), id) == chunk_read(before, id));
        } else {
            assert(later_packs == packs.push(before));
            assert(later_packs[packs.len() as int] == before);
            assert(chunk_read(later_packs[packs.len() as int], id) == ChunkRead::Plain(data));
        }
    }
}

/// What a session knows it goes on knowing: chunks that are known with one
/// answer of the repository's index are known with any later answer, as long
/// as the index has lost no entry between the two.
pub proof fn lemma_known_stays_known(
    session: &CommitSession,
    chunks: Seq<ChunkView>,
    earlier: Seq<bool>,
    later: Seq<bool>,
)
    requires
        all_known(session, chunks, earlier),
        forall|i: int| 0 <= i < chunks.len() && earlier[i] ==> later[i],
    ensures
        all_known(session, chunks, later),
{
    assert forall|i: int| 0 <= i < chunks.len() implies session.knows(
        blake3_digest((#[trigger] chunks[i]).data),
        later[i],
    ) by {
        assert(session.knows(blake3_digest(chunks[i].data), earlier[i]));
    }
}

impl CommitSession {
    /// Stages the chunks of a file, in order.  `stored[i]` tells whether
    /// the repository's index already has chunk `i`.
    ///
    /// Every chunk that was processed is known afterwards, and a chunk that
    /// was known before is left out: staging a file whose chunks are all
    /// known changes nothing and closes no pack, so a file that is committed
    /// a second time costs no pack bytes and no index entries.  At most one
    /// chunk is staged for each chunk of the file.  Every chunk that was
    /// processed and not known before lies in a pack that is handed back or
    /// in the open pack, and so does all that lay in the pack that was open
    /// before.  The file is given up at its first chunk that cannot be
    /// staged; the packs closed before that are handed back all the same.
    pub fn stage_file(&mut self, chunks: &Vec<Chunk>, stored: &Vec<bool>) -> (staged: StagedFile)
        requires
            old(self).inv(),
            stored@.len() == chunks@.len(),
        ensures
            final(self).inv(),
            refer_to(staged.refs@, chunk_views(chunks@)),
            staged.failure is None <==> staged.refs@.len() == chunks@.len(),
            forall|i: int|
                0 <= i < staged.refs@.len() ==> final(self).knows(
                    blake3_digest((#[trigger] chunk_views(chunks@)[i]).data),
                    stored@[i],
                ),
            staged.failure is Some ==> {
                let failed = chunks@[staged.refs@.len() as int];
                ||| failed.data@.len() > u32::MAX
                ||| !final(self).knows(blake3_digest(failed.data@), stored@[staged.refs@.len() as int])
                    && !final(self).accepts(blake3_digest(failed.data@), failed.data@)
            },
            final(self).spec_max_size() == old(self).spec_max_size(),
            old(self).spec_staged().len() <= final(self).spec_staged().len()
                <= old(self).spec_staged().len() + staged.refs@.len(),
            final(self).spec_staged().subrange(0, old(self).spec_staged().len() as int) == old(
                self,
            ).spec_staged(),
            forall|i: int|
                0 <= i < staged.finished@.len() ==> well_formed((#[trigger] staged.finished@[i])@),
            forall|i: int|
                0 <= i < staged.refs@.len() && !old(self).knows(
                    blake3_digest((#[trigger] chunk_views(chunks@)[i]).data),
                    stored@[i],
                ) ==> chunk_lies_in(
                    chunk_views(chunks@),
                    i,
                    pack_views(staged.finished@),
                    final(self).spec_current(),
                ),
            old(self).spec_current() matches Some(before) ==> reads_kept(
                before,
                pack_views(staged.finished@),
                final(self).spec_current(),
            ),
            all_known(old(self), chunk_views(chunks@), stored@) && (forall|i: int|
                0 <= i < chunks@.len() ==> (#[trigger] chunks@[i]).data@.len() <= u32::MAX) ==> {
                &&& staged.failure is None
                &&& staged.finished@.len() == 0
                &&& final(self).spec_staged() == old(self).spec_staged()
                &&& final(self).spec_current() == old(self).spec_current()
            },
    {
        let ghost views = chunk_views(chunks@);
        let ghost start = self.spec_staged();
        let ghost open = self.spec_current();
        let mut refs: Vec<ChunkRef> = Vec::new();
        let mut finished: Vec<PackFile> = Vec::new();
        let mut i: usize = 0;
        assert(self.spec_staged().subrange(0, start.len() as int) =~= start);
        assert(pack_views(finished@) =~= Seq::<PackFileView>::empty());
        while i < chunks.len()
            invariant
                i <= chunks.len(),
                stored@.len() == chunks@.len(),
                views == chunk_views(chunks@),
                start == old(self).spec_staged(),
                open == old(self).spec_current(),
                self.spec_max_size() == old(self).spec_max_size(),
                self.inv(),
                refs@.len() == i,
                refer_to(refs@, views),
                start.len() <= self.spec_staged().len() <= start.len() + i,
                self.spec_staged().subrange(0, start.len() as int) == start,
                forall|j: int|
                    0 <= j < i ==> self.knows(blake3_digest((#[trigger] views[j]).data), stored@[j]),
                forall|j: int| 0 <= j < finished@.len() ==> well_formed((#[trigger] finished@[j])@),
                forall|j: int|
                    0 <= j < i && !stored@[j] && !start.contains(
                        blake3_digest((#[trigger] views[j]).data),
                    ) ==> chunk_lies_in(views, j, pack_views(finished@), self.spec_current()),
                forall|id: Seq<u8>|
                    #![trigger self.spec_staged().contains(id)]
                    self.spec_staged().contains(id) && !start.contains(id) ==> exists|j: int|
                        0 <= j < i && blake3_digest(#[trigger] views[j].data) == id && held(
                            pack_views(finished@),
                            self.spec_current(),
                            id,
                            views[j].data,
                        ),
                open matches Some(first) ==> reads_kept(
                    first,
                    pack_views(finished@),
                    self.spec_current(),
                ),
                (forall|j: int|
                    0 <= j < i ==> start.contains(blake3_digest((#[trigger] views[j]).data))
                        || stored@[j]) ==> {
                    &&& finished@.len() == 0
                    &&& self.spec_staged() == start
                    &&& self.spec_current() == open
                },
            decreases chunks.len() - i,
        {
            let chunk = &chunks[i];
            assert(views[i as int] == chunk@);
            if chunk.data.len() > u32::MAX as usize {
                return StagedFile {
                    refs,
                    finished,
                    failure: Some(Error::Other(String::from_str("chunk too long"))),
                };
            }
            let id = chunk.id();
            let ghost before = self.spec_staged();
            let ghost packs = pack_views(finished@);
            let ghost current = self.spec_current();
            let ghost known = self.knows(id@, stored@[i as int]);
            let ghost rolled = self.rolls_over();
            assert(pack_is_staged(current, before));
            match self.stage_chunk(id, chunk.data.as_slice(), stored[i]) {
                Err(e) => {
                    return StagedFile { refs, finished, failure: Some(e) };
                },
                Ok(closed) => {
                    match closed {
                        Some(pack) => {
                            let ghost joined = pack@;
                            finished.push(pack);
                            assert(pack_views(finished@) =~= packs.push(joined));
                        },
                        None => {},
                    }
                },
            }
            refs.push(ChunkRef { id, offset: 0, length: chunk.data.len() as u32 });
            proof {
                let later_packs = pack_views(finished@);
                let later = self.spec_current();
                assert(staging_step(packs, current, later_packs, later, id@));
                assert(current matches Some(p) ==> forall|x: Seq<u8>|
                    directory_holds(p.chunks, x) ==> x != id@ || known) by {
                    if let Some(p) = current {
                        assert forall|x: Seq<u8>| directory_holds(p.chunks, x) implies x != id@
                            || known by {
                            let k = choose|k: int|
                                0 <= k < p.chunks.len() && (#[trigger] p.chunks[k]).id == x;
                            assert(before.contains(p.chunks[k].id));
                        }
                    }
                }
                assert forall|x: Seq<u8>, y: Seq<u8>| held(packs, current, x, y) implies held(
                    later_packs,
                    later,
                    x,
                    y,
                ) by {
                    if known {
                        assert(later_packs == packs && later == current);
                    } else {
                        lemma_step_keeps(packs, current, later_packs, later, id@, x, y);
                    }
                }
                assert forall|j: int|
                    0 <= j < i + 1 && !stored@[j] && !start.contains(
                        blake3_digest((#[trigger] views[j]).data),
                    ) implies chunk_lies_in(views, j, later_packs, later) by {
                    let d = blake3_digest(views[j].data);
                    if j < i {
                        assert(chunk_lies_in(views, j, packs, current));
                        let w = choose|w: int|
                            0 <= w <= j && blake3_digest(#[trigger] views[w].data) == d && held(
                                packs,
                                current,
                                d,
                                views[w].data,
                            );
                        assert(held(later_packs, later, d, views[w].data));
                    } else {
                        if before.contains(d) {
                            let w = choose|w: int|
                                0 <= w < i && blake3_digest(#[trigger] views[w].data) == d && held(
                                    packs,
                                    current,
                                    d,
                                    views[w].data,
                                );
                            assert(held(later_packs, later, d, views[w].data));
                        } else {
                            assert(held(later_packs, later, d, views[j].data));
                        }
                    }
                }
                assert forall|x: Seq<u8>|
                    #![trigger self.spec_staged().contains(x)]
                    self.spec_staged().contains(x) && !start.contains(x) implies exists|j: int|
                        0 <= j < i + 1 && blake3_digest(#[trigger] views[j].data) == x && held(
                            later_packs,
                            later,
                            x,
                            views[j].data,
                        ) by {
                    if before.contains(x) {
                        let w = choose|w: int|
                            0 <= w < i && blake3_digest(#[trigger] views[w].data) == x && held(
                                packs,
                                current,
                                x,
                                views[w].data,
                            );
                        assert(held(later_packs, later, x, views[w].data));
                    } else {
                        let now = self.spec_staged();
                        let k = choose|k: int| 0 <= k < now.len() && now[k] == x;
                        if k < before.len() {
                            assert(now[k] == before[k]);
                            assert(before.contains(x));
                        }
                        assert(x == id@);
                        assert(held(later_packs, later, x, views[i as int].data));
                    }
                }
                if let Some(first) = open {
                    assert forall|x: Seq<u8>| (#[trigger] chunk_read(first, x)) is Plain implies held(
                        later_packs,
                        later,
                        x,
                        chunk_read(first, x)->Plain_0,
                    ) by {
                        assert(held(packs, current, x, chunk_read(first, x)->Plain_0));
                    }
                }
                let now = self.spec_staged();
                assert(now.subrange(0, start.len() as int) =~= start);
                assert forall|j: int| 0 <= j < i + 1 implies self.knows(
                    blake3_digest((#[trigger] views[j]).data),
                    stored@[j],
                ) by {
                    let d = blake3_digest(views[j].data);
                    if !stored@[j] {
                        if j < i {
                            assert(before.contains(d));
                            let k = choose|k: int| 0 <= k < before.len() && before[k] == d;
                            assert(now[k] == d);
                        } else {
                            if before.contains(d) {
                                let k = choose|k: int| 0 <= k < before.len() && before[k] == d;
                                assert(now[k] == d);
                            } else {
                                assert(now[now.len() - 1] == d);
                            }
                        }
                    }
                }
                if forall|j: int|
                    0 <= j < i + 1 ==> start.contains(blake3_digest((#[trigger] views[j]).data))
                        || stored@[j] {
                    assert(start.contains(blake3_digest(views[i as int].data)) || stored@[i as int]);
                }
            }
            i += 1;
        }
        StagedFile { refs, finished, failure: None }
    }
}

/// One step of putting a commit into the blob store.
#[derive(Debug)]
pub enum StoreAction {
    /// Put a pack.
    PutPack(BlobWrite),
    /// Put the index entry of a chunk: its content under its path.
    PutIndex { path: String, location: ChunkLocation },
    /// Put a tree.
    PutTree(BlobWrite),
    /// Put a snapshot.
    PutSnapshot(BlobWrite),
}

/// Whether every index entry among the actions comes after the pack that
/// it points into.
pub open spec fn packs_before_entries(actions: Seq<StoreAction>) -> bool {
    forall|i: int|
        0 <= i < actions.len() ==> (#[trigger] actions[i] matches StoreAction::PutIndex {
            location,
            ..
        } ==> exists|j: int|
            0 <= j < i && (#[trigger] actions[j] matches StoreAction::PutPack(write) && write.path@
                == pack_path_of(location.pack_id@)))
}

/// Whether the actions are in the order of a commit: packs before their
/// index entries, then the tree, and the snapshot last of all.
pub open spec fn commit_ordered(actions: Seq<StoreAction>) -> bool {
    &&& actions.len() >= 2
    &&& actions.last() is PutSnapshot
    &&& actions[actions.len() - 2] is PutTree
    &&& packs_before_entries(actions)
    &&& forall|i: int|
        0 <= i < actions.len() - 2 ==> (#[trigger] actions[i]) is PutPack || actions[i] is PutIndex
}

/// Whether the actions store one pack under `key`: first the pack, as a
/// stored form of it that opens under the key, then the index entry of each
/// of its chunks, in the order of its directory.
pub open spec fn stores_pack(actions: Seq<StoreAction>, pack: PackFileView, key: Seq<u8>) -> bool {
    &&& actions.len() == pack.chunks.len() + 1
    &&& actions[0] matches StoreAction::PutPack(write) && write.path@ == pack_path_of(
        pack.header.pack_id,
    ) && is_pack_encoding(key, pack, write.data@)
    &&& forall|i: int|
        0 <= i < pack.chunks.len() ==> (#[trigger] actions[i + 1] matches StoreAction::PutIndex {
            path,
            location,
        } && path@ == index_path_of(pack.chunks[i].id) && location@ == (ChunkLocationView {
            pack_id: pack.header.pack_id,
            offset: pack.chunks[i].offset,
            length: pack.chunks[i].length,
        }))
}

/// The actions that store one pack keep the order.
pub proof fn lemma_pack_is_ordered(actions: Seq<StoreAction>, pack: PackFileView, key: Seq<u8>)
    requires
        stores_pack(actions, pack, key),
    ensures
        packs_before_entries(actions),
{
    assert forall|i: int| 0 <= i < actions.len() implies (#[trigger] actions[i] matches StoreAction::PutIndex {
        location,
        ..
    } ==> exists|j: int|
        0 <= j < i && (#[trigger] actions[j] matches StoreAction::PutPack(write) && write.path@
            == pack_path_of(location.pack_id@))) by {
        if i > 0 {
            assert(actions[(i - 1) + 1] is PutIndex);
            assert(actions[0] is PutPack);
        }
    }
}

/// The actions that store a pack put an index entry for every chunk that
/// reads from it: under the chunk's path, naming the pack, and behind the
/// pack itself.
pub proof fn lemma_pack_indexes_its_chunks(
    actions: Seq<StoreAction>,
    pack: PackFileView,
    key: Seq<u8>,
    id: Seq<u8>,
)
    requires
        stores_pack(actions, pack, key),
        chunk_read(pack, id) is Plain,
    ensures
        exists|i: int|
            1 <= i < actions.len() && (#[trigger] actions[i] matches StoreAction::PutIndex {
                path,
                location,
            } && path@ == index_path_of(id) && location@.pack_id == pack.header.pack_id),
        actions[0] matches StoreAction::PutPack(write) && write.path@ == pack_path_of(
            pack.header.pack_id,
        ) && is_pack_encoding(key, pack, write.data@),
{
    assert(directory_holds(pack.chunks, id));
    let k = choose|k: int| 0 <= k < pack.chunks.len() && (#[trigger] pack.chunks[k]).id == id;
    assert(actions[k + 1] is PutIndex);
}

/// The fence of a commit: where the actions of a commit hold, before the
/// tree, the actions that store a pack, every chunk that reads from that
/// pack has its index entry behind the pack and before the tree, and the
/// snapshot comes after all of them.  So when the snapshot is visible, the
/// pack and the index entry of every such chunk are in the store.
pub proof fn lemma_chunk_is_stored_before_snapshot(
    actions: Seq<StoreAction>,
    at: int,
    part: Seq<StoreAction>,
    pack: PackFileView,
    key: Seq<u8>,
    id: Seq<u8>,
)
    requires
        commit_ordered(actions),
        0 <= at,
        at + part.len() <= actions.len() - 2,
        actions.subrange(at, at + part.len()) == part,
        stores_pack(part, pack, key),
        chunk_read(pack, id) is Plain,
    ensures
        actions[at] matches StoreAction::PutPack(write) && write.path@ == pack_path_of(
            pack.header.pack_id,
        ) && is_pack_encoding(key, pack, write.data@),
        exists|i: int|
            at < i < actions.len() - 2 && (#[trigger] actions[i] matches StoreAction::PutIndex {
                path,
                location,
            } && path@ == index_path_of(id) && location@.pack_id == pack.header.pack_id),
        actions[actions.len() - 2] is PutTree,
        actions[actions.len() - 1] is PutSnapshot,
{
    lemma_pack_indexes_its_chunks(part, pack, key, id);
    let k = choose|k: int|
        1 <= k < part.len() && (#[trigger] part[k] matches StoreAction::PutIndex {
            path,
            location,
        } && path@ == index_path_of(id) && location@.pack_id == pack.header.pack_id);
    assert(part[k] == actions[at + k]);
    assert(part[0] == actions[at]);
    assert(actions.last() == actions[actions.len() - 1]);
}

/// Ordered actions followed by ordered actions are ordered.
pub proof fn lemma_order_is_kept(first: Seq<StoreAction>, second: Seq<StoreAction>)
    requires
        packs_before_entries(first),
        packs_before_entries(second),
    ensures
        packs_before_entries(first + second),
{
    let all = first + second;
    assert forall|i: int| 0 <= i < all.len() implies (#[trigger] all[i] matches StoreAction::PutIndex {
        location,
        ..
    } ==> exists|j: int|
        0 <= j < i && (#[trigger] all[j] matches StoreAction::PutPack(write) && write.path@
            == pack_path_of(location.pack_id@))) by {
        if all[i] is PutIndex {
            if i < first.len() {
                assert(all[i] == first[i]);
                let j = choose|j: int|
                    0 <= j < i && (#[trigger] first[j] matches StoreAction::PutPack(write)
                        && write.path@ == pack_path_of(first[i]->PutIndex_location.pack_id@));
                assert(all[j] == first[j]);
            } else {
                let k = i - first.len();
                assert(all[i] == second[k]);
                let j = choose|j: int|
                    0 <= j < k && (#[trigger] second[j] matches StoreAction::PutPack(write)
                        && write.path@ == pack_path_of(second[k]->PutIndex_location.pack_id@));
                assert(all[j + first.len()] == second[j]);
            }
        }
    }
}

/// The actions that store a finished pack: the pack first, sealed under
/// the data key of the session, then the index entry of each of its chunks.
///
/// The order is the fence of the commit: as long as the actions are carried
/// out in order, an index entry is never visible before its pack.
pub fn pack_actions(repository: &Repository, pack: &PackFile) -> (r: core::result::Result<
    Vec<StoreAction>,
    Error,
>)
    ensures
        r matches Ok(actions) ==> repository.spec_data_key() matches Some(key) && stores_pack(
            actions@,
            pack@,
            key,
        ) && packs_before_entries(actions@),
        r is Ok <==> repository.spec_data_key() is Some && crate::pack::pack_storable(pack@),
{
    let write = match repository.save_pack(pack) {
        Ok(write) => write,
        Err(e) => {
            return Err(e);
        },
    };
    let ghost key = repository.spec_data_key().unwrap();
    let mut actions: Vec<StoreAction> = Vec::new();
    actions.push(StoreAction::PutPack(write));
    let mut i: usize = 0;
    while i < pack.chunks.len()
        invariant
            i <= pack.chunks.len(),
            actions@.len() == i + 1,
            repository.spec_data_key() == Some(key),
            actions@[0] matches StoreAction::PutPack(write) && write.path@ == pack_path_of(
                pack@.header.pack_id,
            ) && is_pack_encoding(key, pack@, write.data@),
            forall|j: int|
                0 <= j < i ==> (#[trigger] actions@[j + 1] matches StoreAction::PutIndex {
                    path,
                    location,
                } && path@ == index_path_of(pack@.chunks[j].id) && location@ == (ChunkLocationView {
                    pack_id: pack@.header.pack_id,
                    offset: pack@.chunks[j].offset,
                    length: pack@.chunks[j].length,
                })),
        decreases pack.chunks.len() - i,
    {
        let entry = &pack.chunks[i];
        assert(entry@ == pack@.chunks[i as int]);
        let (path, location) = Repository::save_chunk_location(
            &entry.id,
            pack.header.pack_id.as_str(),
            entry.offset,
            entry.length,
        );
        let ghost before = actions@;
        actions.push(StoreAction::PutIndex { path, location });
        proof {
            assert forall|j: int| 0 <= j < i + 1 implies (#[trigger] actions@[j + 1] matches StoreAction::PutIndex {
                path,
                location,
            } && path@ == index_path_of(pack@.chunks[j].id) && location@ == (ChunkLocationView {
                pack_id: pack@.header.pack_id,
                offset: pack@.chunks[j].offset,
                length: pack@.chunks[j].length,
            })) by {
                if j < i {
                    assert(actions@[j + 1] == before[j + 1]);
                }
            }
            assert(actions@[0] == before[0]);
        }
        i += 1;
    }
    proof {
        lemma_pack_is_ordered(actions@, pack@, key);
    }
    Ok(actions)
}

/// The whole of a commit in order: what stores the packs, then the tree,
/// then the snapshot.  The snapshot becomes visible last, when everything
/// that it refers to is in the store.
pub fn commit_actions(packs: Vec<StoreAction>, tree: BlobWrite, snapshot: BlobWrite) -> (actions: Vec<
    StoreAction,
>)
    requires
        packs_before_entries(packs@),
        forall|i: int| 0 <= i < packs@.len() ==> (#[trigger] packs@[i]) is PutPack || packs@[i] is PutIndex,
    ensures
        commit_ordered(actions@),
        actions@.subrange(0, packs@.len() as int) == packs@,
        actions@[packs@.len() as int] == StoreAction::PutTree(tree),
        actions@[packs@.len() as int + 1] == StoreAction::PutSnapshot(snapshot),
{
    let mut actions = packs;
    let ghost first = actions@;
    actions.push(StoreAction::PutTree(tree));
    actions.push(StoreAction::PutSnapshot(snapshot));
    proof {
        assert(actions@.subrange(0, first.len() as int) =~= first);
        assert forall|i: int| 0 <= i < actions@.len() implies (#[trigger] actions@[i] matches StoreAction::PutIndex {
            location,
            ..
        } ==> exists|j: int|
            0 <= j < i && (#[trigger] actions@[j] matches StoreAction::PutPack(write) && write.path@
                == pack_path_of(location.pack_id@))) by {
            if actions@[i] is PutIndex {
                assert(actions@[i] == first[i]);
                let j = choose|j: int|
                    0 <= j < i && (#[trigger] first[j] matches StoreAction::PutPack(write)
                        && write.path@ == pack_path_of(first[i]->PutIndex_location.pack_id@));
                assert(actions@[j] == first[j]);
            }
        }
        assert forall|i: int| 0 <= i < actions@.len() - 2 implies (#[trigger] actions@[i]) is PutPack
            || actions@[i] is PutIndex by {
            assert(actions@[i] == first[i]);
        }
    }
    actions
}

} // verus!
