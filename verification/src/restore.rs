//! Reconstruction of files from their chunks.
//!
//! A file is the plaintexts of its chunks, in the order of its node's
//! references.  The caller fetches the packs that the index names; the
//! library reads each chunk from its pack and joins them.

use crate::chunker::{ChunkView, joined};
use crate::commit::pack_views;
use crate::error::Error;
use crate::hexcode::hex_lower;
use crate::pack::{ChunkRead, PackFile, PackFileView, chunk_read};
use crate::snapshot::texts;
use crate::text::{chars_of, contains_text, occurs_in};
use crate::types::{ChunkRef, TreeNode};
use vstd::prelude::*;

verus! {

/// What reading the chunk of reference `index` comes to, from the pack that
/// `pack_of` names for it.
pub open spec fn part_read(
    refs: Seq<ChunkRef>,
    pack_of: Seq<usize>,
    packs: Seq<PackFileView>,
    index: int,
) -> ChunkRead {
    if index < pack_of.len() && pack_of[index] < packs.len() {
        chunk_read(packs[pack_of[index] as int], refs[index].id@)
    } else {
        ChunkRead::Missing
    }
}

/// The plaintexts of the first `count` references, joined, if each of them
/// can be read.
pub open spec fn restored_upto(
    refs: Seq<ChunkRef>,
    pack_of: Seq<usize>,
    packs: Seq<PackFileView>,
    count: nat,
) -> Option<Seq<u8>>
    decreases count,
{
    if count == 0 {
        Some(Seq::empty())
    } else {
        match restored_upto(refs, pack_of, packs, (count - 1) as nat) {
            None => None,
            Some(bytes) => match part_read(refs, pack_of, packs, count - 1) {
                ChunkRead::Plain(plain) => Some(bytes + plain),
                _ => None,
            },
        }
    }
}

/// The bytes of a file with the references given, if every chunk can be
/// read.
pub open spec fn restored(refs: Seq<ChunkRef>, pack_of: Seq<usize>, packs: Seq<PackFileView>) -> Option<
    Seq<u8>,
> {
    restored_upto(refs, pack_of, packs, refs.len())
}

/// Whether `index` is the first reference whose chunk cannot be read.
pub open spec fn is_first_unreadable(
    refs: Seq<ChunkRef>,
    pack_of: Seq<usize>,
    packs: Seq<PackFileView>,
    index: int,
) -> bool {
    &&& 0 <= index < refs.len()
    &&& !(part_read(refs, pack_of, packs, index) is Plain)
    &&& forall|j: int| 0 <= j < index ==> (#[trigger] part_read(refs, pack_of, packs, j)) is Plain
}

/// Whether `error` is the error for the chunk of reference `index`, which
/// cannot be read: `ChunkNotFound` with the chunk's identifier where no pack
/// is named for it or its pack does not hold it, `CorruptedPack` with the
/// pack's identifier where the pack's directory points outside its data, and
/// `Other` where the stored bytes do not inflate.
pub open spec fn is_read_error(
    refs: Seq<ChunkRef>,
    pack_of: Seq<usize>,
    packs: Seq<PackFileView>,
    index: int,
    error: Error,
) -> bool {
    match part_read(refs, pack_of, packs, index) {
        ChunkRead::Missing => error matches Error::ChunkNotFound { id } && id@ == hex_lower(
            refs[index].id@,
        ),
        ChunkRead::Corrupt => error matches Error::CorruptedPack { id } && id@
            == packs[pack_of[index] as int].header.pack_id,
        ChunkRead::Garbled => error is Other,
        ChunkRead::Plain(_) => false,
    }
}

/// Rebuilds a file from its chunks.  `pack_of[i]` is the place in `packs`
/// of the pack that the index names for the chunk of reference `i`.
///
/// The file is rebuilt exactly when each chunk can be read from its pack;
/// the first chunk that cannot be read gives the error, and nothing of the
/// file comes back.
pub fn restore_file(chunks: &Vec<ChunkRef>, pack_of: &Vec<usize>, packs: &Vec<PackFile>) -> (r:
    core::result::Result<Vec<u8>, Error>)
    ensures
        match restored(chunks@, pack_of@, pack_views(packs@)) {
            Some(bytes) => r matches Ok(file) && file@ == bytes,
            None => r matches Err(error) && exists|index: int|
                #[trigger] is_first_unreadable(chunks@, pack_of@, pack_views(packs@), index)
                    && is_read_error(chunks@, pack_of@, pack_views(packs@), index, error),
        },
{
    let ghost views = pack_views(packs@);
    let mut file: Vec<u8> = Vec::new();
    let mut i: usize = 0;
    while i < chunks.len()
        invariant
            i <= chunks.len(),
            views == pack_views(packs@),
            restored_upto(chunks@, pack_of@, views, i as nat) == Some(file@),
            forall|j: int| 0 <= j < i ==> (#[trigger] part_read(chunks@, pack_of@, views, j)) is Plain,
        decreases chunks.len() - i,
    {
        let ghost before = file@;
        if i >= pack_of.len() || pack_of[i] >= packs.len() {
            proof {
                lemma_restored_stays_none(chunks@, pack_of@, views, (i + 1) as nat, chunks@.len());
                assert(is_first_unreadable(chunks@, pack_of@, views, i as int));
            }
            return Err(Error::ChunkNotFound { id: chunks[i].id.to_hex() });
        }
        let pack = &packs[pack_of[i]];
        assert(views[pack_of@[i as int] as int] == pack@);
        match pack.get_chunk(&chunks[i].id) {
            Ok(plain) => {
                file.extend_from_slice(plain.as_slice());
                assert(file@ =~= before + plain@);
            },
            Err(e) => {
                proof {
                    lemma_restored_stays_none(
                        chunks@,
                        pack_of@,
                        views,
                        (i + 1) as nat,
                        chunks@.len(),
                    );
                    assert(is_first_unreadable(chunks@, pack_of@, views, i as int));
                    assert(is_read_error(chunks@, pack_of@, views, i as int, e));
                }
                return Err(e);
            },
        }
        i += 1;
    }
    Ok(file)
}

/// Once a chunk cannot be read, nothing is rebuilt.
proof fn lemma_restored_stays_none(
    refs: Seq<ChunkRef>,
    pack_of: Seq<usize>,
    packs: Seq<PackFileView>,
    failed: nat,
    count: nat,
)
    requires
        restored_upto(refs, pack_of, packs, failed) is None,
        failed <= count,
    ensures
        restored_upto(refs, pack_of, packs, count) is None,
    decreases count,
{
    if count > failed {
        lemma_restored_stays_none(refs, pack_of, packs, failed, (count - 1) as nat);
    }
}

/// Restoring is the identity: where each reference of a file reads back the
/// bytes of the chunk it was made for, the file that is rebuilt from the
/// references is the file that was cut into the chunks.
pub proof fn lemma_restore_is_identity(
    data: Seq<u8>,
    chunks: Seq<ChunkView>,
    refs: Seq<ChunkRef>,
    pack_of: Seq<usize>,
    packs: Seq<PackFileView>,
)
    requires
        joined(chunks) == data,
        refs.len() == chunks.len(),
        forall|i: int|
            0 <= i < refs.len() ==> #[trigger] part_read(refs, pack_of, packs, i)
                == ChunkRead::Plain(chunks[i].data),
    ensures
        restored(refs, pack_of, packs) == Some(data),
{
    lemma_restored_joins(chunks, refs, pack_of, packs, refs.len());
    assert(chunks.subrange(0, chunks.len() as int) =~= chunks);
}

proof fn lemma_restored_joins(
    chunks: Seq<ChunkView>,
    refs: Seq<ChunkRef>,
    pack_of: Seq<usize>,
    packs: Seq<PackFileView>,
    count: nat,
)
    requires
        refs.len() == chunks.len(),
        count <= refs.len(),
        forall|i: int|
            0 <= i < refs.len() ==> #[trigger] part_read(refs, pack_of, packs, i)
                == ChunkRead::Plain(chunks[i].data),
    ensures
        restored_upto(refs, pack_of, packs, count) == Some(joined(chunks.subrange(0, count as int))),
    decreases count,
{
    if count == 0 {
        assert(joined(chunks.subrange(0, 0)) =~= Seq::<u8>::empty());
    } else {
        lemma_restored_joins(chunks, refs, pack_of, packs, (count - 1) as nat);
        let head = chunks.subrange(0, count as int);
        assert(head.drop_last() =~= chunks.subrange(0, count - 1));
        assert(head.last() == chunks[count - 1]);
        assert(part_read(refs, pack_of, packs, count - 1) == ChunkRead::Plain(chunks[count - 1].data));
    }
}

/// Whether a node is among those to restore: every node where no path is
/// asked for, and else each node whose name holds one of the paths.
pub open spec fn node_wanted(name: Seq<char>, paths: Seq<Seq<char>>) -> bool {
    paths.len() == 0 || exists|k: int| 0 <= k < paths.len() && occurs_in(name, #[trigger] paths[k])
}

/// The places of the nodes to restore, in their order in the tree.
pub fn nodes_to_restore(nodes: &Vec<TreeNode>, paths: &Vec<String>) -> (wanted: Vec<usize>)
    ensures
        forall|k: int|
            0 <= k < wanted@.len() ==> (#[trigger] wanted@[k]) < nodes@.len() && node_wanted(
                nodes@[wanted@[k] as int]@.name,
                texts(paths@),
            ),
        forall|k: int, l: int| 0 <= k < l < wanted@.len() ==> wanted@[k] < wanted@[l],
        forall|i: int|
            0 <= i < nodes@.len() && node_wanted((#[trigger] nodes@[i])@.name, texts(paths@))
                ==> wanted@.contains(i as usize),
{
    let ghost asked = texts(paths@);
    let mut wanted: Vec<usize> = Vec::new();
    let mut i: usize = 0;
    while i < nodes.len()
        invariant
            i <= nodes.len(),
            asked == texts(paths@),
            forall|k: int|
                0 <= k < wanted@.len() ==> (#[trigger] wanted@[k]) < i && node_wanted(
                    nodes@[wanted@[k] as int]@.name,
                    asked,
                ),
            forall|k: int, l: int| 0 <= k < l < wanted@.len() ==> wanted@[k] < wanted@[l],
            forall|j: int|
                0 <= j < i && node_wanted((#[trigger] nodes@[j])@.name, asked) ==> wanted@.contains(
                    j as usize,
                ),
        decreases nodes.len() - i,
    {
        let name = chars_of(nodes[i].name.as_str());
        let mut keep = paths.len() == 0;
        let mut k: usize = 0;
        while !keep && k < paths.len()
            invariant
                k <= paths.len(),
                asked == texts(paths@),
                name@ == nodes@[i as int]@.name,
                i < nodes.len(),
                keep ==> node_wanted(name@, asked),
                !keep ==> paths.len() > 0 && forall|m: int|
                    0 <= m < k ==> !occurs_in(name@, #[trigger] asked[m]),
            decreases paths.len() - k, if keep { 0int } else { 1int },
        {
            let path = chars_of(paths[k].as_str());
            assert(asked[k as int] == path@);
            if contains_text(&name, &path) {
                keep = true;
            } else {
                k += 1;
            }
        }
        let ghost before = wanted@;
        if keep {
            wanted.push(i);
            proof {
                assert(wanted@[wanted@.len() - 1] == i);
                assert forall|j: int|
                    0 <= j < i + 1 && node_wanted(
                        (#[trigger] nodes@[j])@.name,
                        asked,
                    ) implies wanted@.contains(j as usize) by {
                    if j < i {
                        let m = choose|m: int| 0 <= m < before.len() && before[m] == j as usize;
                        assert(wanted@[m] == j as usize);
                    }
                }
            }
        }
        i += 1;
    }
    wanted
}

} // verus!
