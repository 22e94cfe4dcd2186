//! A set of chunk identifiers that is asked often and only ever grows.
//!
//! The identifiers lie in buckets under their first eight bytes, which are
//! as good as random, so that asking for one looks at few others.

use crate::types::ChunkID;
use std::collections::HashMap;
use vstd::bytes::{spec_u64_from_le_bytes, u64_from_le_bytes};
use vstd::prelude::*;
use vstd::slice::slice_subrange;

verus! {

broadcast use vstd::std_specs::hash::group_hash_axioms;

/// The bucket of an identifier: its first eight bytes as a number.
pub open spec fn bucket_of(id: Seq<u8>) -> u64 {
    spec_u64_from_le_bytes(id.subrange(0, 8))
}

/// Whether a bucket holds the identifier.
pub open spec fn bucket_holds(bucket: Seq<ChunkID>, id: Seq<u8>) -> bool {
    exists|i: int| 0 <= i < bucket.len() && (#[trigger] bucket[i])@ == id
}

/// A set of chunk identifiers.
pub struct ChunkSet {
    buckets: HashMap<u64, Vec<ChunkID>>,
}

impl View for ChunkSet {
    type V = Set<Seq<u8>>;

    closed spec fn view(&self) -> Set<Seq<u8>> {
        Set::new(
            |id: Seq<u8>|
                self.buckets@.contains_key(bucket_of(id)) && bucket_holds(
                    self.buckets@[bucket_of(id)]@,
                    id,
                ),
        )
    }
}

/// Tells whether a bucket holds the identifier.
fn holds(bucket: &Vec<ChunkID>, id: &ChunkID) -> (r: bool)
    ensures
        r == bucket_holds(bucket@, id@),
{
    let mut i: usize = 0;
    while i < bucket.len()
        invariant
            i <= bucket.len(),
            forall|j: int| 0 <= j < i ==> (#[trigger] bucket@[j])@ != id@,
        decreases bucket.len() - i,
    {
        if bucket[i] == *id {
            return true;
        }
        i += 1;
    }
    false
}

/// The number of the bucket of an identifier.
fn bucket_number(id: &ChunkID) -> (number: u64)
    ensures
        number == bucket_of(id@),
{
    let bytes = id.as_bytes();
    proof {
        id.lemma_view();
    }
    u64_from_le_bytes(slice_subrange(bytes.as_slice(), 0, 8))
}

impl ChunkSet {
    /// The empty set.
    pub fn new() -> (set: Self)
        ensures
            set@ == Set::<Seq<u8>>::empty(),
    {
        let set = ChunkSet { buckets: HashMap::new() };
        assert(set@ =~= Set::<Seq<u8>>::empty());
        set
    }

    /// Whether the set holds the identifier.
    pub fn contains(&self, id: &ChunkID) -> (r: bool)
        ensures
            r == self@.contains(id@),
    {
        let number = bucket_number(id);
        match self.buckets.get(&number) {
            Some(bucket) => holds(bucket, id),
            None => false,
        }
    }

    /// Puts an identifier into the set.
    pub fn insert(&mut self, id: ChunkID)
        ensures
            final(self)@ == old(self)@.insert(id@),
    {
        let number = bucket_number(&id);
        let mut bucket = match self.buckets.remove(&number) {
            Some(bucket) => bucket,
            None => Vec::new(),
        };
        let ghost before = bucket@;
        if !holds(&bucket, &id) {
            bucket.push(id);
        }
        let ghost after = bucket@;
        self.buckets.insert(number, bucket);
        proof {
            assert forall|other: Seq<u8>| bucket_holds(after, other) == (bucket_holds(before, other)
                || other == id@) by {
                if bucket_holds(before, other) {
                    let i = choose|i: int| 0 <= i < before.len() && (#[trigger] before[i])@ == other;
                    assert(after[i]@ == other);
                }
                if other == id@ {
                    if bucket_holds(before, id@) {
                        let i = choose|i: int| 0 <= i < before.len() && (#[trigger] before[i])@ == id@;
                        assert(after[i]@ == other);
                    } else {
                        assert(after[after.len() - 1]@ == other);
                    }
                }
                if bucket_holds(after, other) {
                    let i = choose|i: int| 0 <= i < after.len() && (#[trigger] after[i])@ == other;
                    if i < before.len() {
                        assert(before[i]@ == other);
                    }
                }
            }
            assert(self@ =~= old(self)@.insert(id@));
        }
    }
}

} // verus!
