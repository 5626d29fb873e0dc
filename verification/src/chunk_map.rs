//! Map from a don't-care mask to the chunk recording which sub-cubes with
//! that mask are implicants.
//!
//! Backed by an association list with distinct keys; viewed as a
//! mathematical map from mask to the chunk's set of fixed patterns.

use vstd::prelude::*;

use crate::bits::Bitset;

verus! {

/// Mapping from don't-care mask to chunk.
pub struct ChunkMap {
    entries: Vec<(u32, Bitset)>,
}

impl View for ChunkMap {
    type V = Map<u32, Set<u32>>;

    closed spec fn view(&self) -> Map<u32, Set<u32>> {
        Map::new(
            |k: u32| self.keys_seq().contains(k),
            |k: u32| self.entries@[self.idx_of(k)].1.bits(),
        )
    }
}

impl ChunkMap {
    /// The keys, in insertion order.
    pub closed spec fn keys_seq(self) -> Seq<u32> {
        self.entries@.map_values(|e: (u32, Bitset)| e.0)
    }

    /// Position of a present key in the entry list.
    closed spec fn idx_of(self, k: u32) -> int {
        choose|i: int| 0 <= i < self.entries@.len() && self.entries@[i].0 == k
    }

    /// No key occurs twice.
    pub closed spec fn keys_distinct(self) -> bool {
        forall|i: int, j: int|
            0 <= i < j < self.entries@.len() ==> (#[trigger] self.entries@[i].0) != (
            #[trigger] self.entries@[j].0)
    }

    /// Every chunk is well formed with capacity `cap`.
    pub closed spec fn chunks_wf(self, cap: nat) -> bool {
        forall|i: int|
            0 <= i < self.entries@.len() ==> (#[trigger] self.entries@[i].1).inv()
                && self.entries@[i].1.capacity() == cap
    }

    /// Well-formed map whose chunks all have capacity `cap`.
    pub open spec fn wf(self, cap: nat) -> bool {
        self.keys_distinct() && self.chunks_wf(cap)
    }

    /// A key is in the map exactly when it is among the listed keys.
    pub proof fn lemma_keys(self)
        ensures
            forall|k: u32| #[trigger] self@.contains_key(k) <==> self.keys_seq().contains(k),
    {
    }

    /// With distinct keys, the listed keys have no duplicates.
    pub proof fn lemma_keys_no_dup(self)
        requires
            self.keys_distinct(),
        ensures
            forall|i: int, j: int|
                0 <= i < j < self.keys_seq().len() ==> self.keys_seq()[i] != self.keys_seq()[j],
    {
        assert forall|i: int, j: int|
            0 <= i < j < self.keys_seq().len() implies self.keys_seq()[i]
            != self.keys_seq()[j] by {
            assert(self.entries@[i].0 != self.entries@[j].0);
        }
    }

    /// Create an empty map.
    pub fn new() -> (r: ChunkMap)
        ensures
            r@ == Map::<u32, Set<u32>>::empty(),
            r.keys_seq() == Seq::<u32>::empty(),
            forall|c: nat| r.wf(c),
    {
        let r = ChunkMap { entries: Vec::new() };
        proof {
            assert(r.keys_seq() =~= Seq::<u32>::empty());
            assert(r@ =~= Map::<u32, Set<u32>>::empty());
        }
        r
    }

    /// Number of chunks held.
    pub fn len(&self) -> (r: usize)
        ensures
            r == self.keys_seq().len(),
    {
        self.entries.len()
    }

    /// True exactly when no chunk is held.
    pub fn is_empty(&self) -> (r: bool)
        ensures
            r <==> self.keys_seq().len() == 0,
            r ==> self@ == Map::<u32, Set<u32>>::empty(),
    {
        let r = self.entries.len() == 0;
        proof {
            if r {
                assert(self@ =~= Map::<u32, Set<u32>>::empty());
            }
        }
        r
    }

    /// Drop all chunks.
    pub fn clear(&mut self)
        ensures
            final(self)@ == Map::<u32, Set<u32>>::empty(),
            final(self).keys_seq() == Seq::<u32>::empty(),
            forall|c: nat| final(self).wf(c),
    {
        self.entries.clear();
        proof {
            assert(final(self).keys_seq() =~= Seq::<u32>::empty());
            assert(final(self)@ =~= Map::<u32, Set<u32>>::empty());
        }
    }

    /// Add the chunk for a mask not yet present.
    pub fn insert(&mut self, key: u32, chunk: Bitset)
        requires
            old(self).keys_distinct(),
            !old(self)@.contains_key(key),
        ensures
            final(self)@ == old(self)@.insert(key, chunk.bits()),
            final(self).keys_seq() == old(self).keys_seq().push(key),
            final(self).keys_distinct(),
            forall|c: nat|
                old(self).chunks_wf(c) && chunk.inv() && chunk.capacity() == c
                    ==> final(self).chunks_wf(c),
    {
        proof {
            old(self).lemma_keys();
        }
        self.entries.push((key, chunk));
        proof {
            let new = *self;
            let older = *old(self);
            let last = new.entries@.len() - 1;
            assert(new.keys_seq() =~= older.keys_seq().push(key));
            assert forall|i: int, j: int| 0 <= i < j < new.entries@.len() implies (
            #[trigger] new.entries@[i].0) != (#[trigger] new.entries@[j].0) by {
                if j == last {
                    assert(new.entries@[i].0 == older.entries@[i].0);
                    if older.entries@[i].0 == key {
                        assert(older.keys_seq()[i] == key);
                        assert(older.keys_seq().contains(key));
                        assert(false);
                    }
                } else {
                    assert(new.entries@[i].0 == older.entries@[i].0);
                    assert(new.entries@[j].0 == older.entries@[j].0);
                }
            }
            assert forall|k: u32| #[trigger] new.keys_seq().contains(k) implies (k == key
                || older.keys_seq().contains(k)) by {
                let i = choose|i: int|
                    0 <= i < new.keys_seq().len() && new.keys_seq()[i] == k;
                if i < last {
                    assert(older.keys_seq()[i] == k);
                }
            }
            assert forall|k: u32| #[trigger] new.keys_seq().contains(k) implies new@[k]
                == older@.insert(key, chunk.bits())[k] by {
                if k == key {
                    assert(new.entries@[last].0 == key);
                    let i = new.idx_of(k);
                    assert(0 <= i < new.entries@.len() && new.entries@[i].0 == k);
                    assert(i == last);
                    assert(new@[k] == chunk.bits());
                } else {
                    let i = new.idx_of(k);
                    assert(0 <= i < new.entries@.len() && new.entries@[i].0 == k);
                    assert(i < last);
                    assert(older.entries@[i].0 == k);
                    assert(older.keys_seq()[i] == k);
                    assert(older.keys_seq().contains(k));
                    let j = older.idx_of(k);
                    assert(0 <= j < older.entries@.len() && older.entries@[j].0 == k);
                    assert(j == i);
                    assert(new@[k] == older@[k]);
                }
            }
            assert forall|k: u32| #[trigger]
                older@.insert(key, chunk.bits()).contains_key(k) implies new@.contains_key(
                k,
            ) by {
                if k == key {
                    assert(new.keys_seq()[last] == key);
                    assert(new.keys_seq().contains(k));
                } else {
                    assert(older@.contains_key(k));
                    let j = choose|j: int|
                        0 <= j < older.keys_seq().len() && older.keys_seq()[j] == k;
                    assert(new.keys_seq()[j] == k);
                    assert(new.keys_seq().contains(k));
                }
            }
            assert(new@ =~= older@.insert(key, chunk.bits()));
        }
    }

    /// Look up the chunk for a mask, when present.
    pub fn get(&self, key: u32) -> (r: Option<&Bitset>)
        requires
            self.keys_distinct(),
        ensures
            r is None <==> !self@.contains_key(key),
            r matches Some(b) ==> self@.contains_key(key) && b.bits() == self@[key] && (forall|
                c: nat,
            | self.chunks_wf(c) ==> b.inv() && b.capacity() == c),
    {
        proof {
            self.lemma_keys();
        }
        let n = self.entries.len();
        let mut i: usize = 0;
        while i < n
            invariant
                n == self.entries@.len(),
                0 <= i <= n,
                forall|j: int| 0 <= j < i ==> (#[trigger] self.entries@[j].0) != key,
                self.keys_distinct(),
            decreases n - i,
        {
            if self.entries[i].0 == key {
                proof {
                    assert(self.keys_seq()[i as int] == key);
                    assert(self.keys_seq().contains(key));
                    let j = self.idx_of(key);
                    assert(0 <= j < self.entries@.len() && self.entries@[j].0 == key);
                    assert(j == i);
                }
                return Some(&self.entries[i].1);
            }
            i += 1;
        }
        proof {
            if self.keys_seq().contains(key) {
                let j = choose|j: int|
                    0 <= j < self.keys_seq().len() && self.keys_seq()[j] == key;
                assert(self.entries@[j].0 == key);
            }
        }
        None
    }

    /// The mask stored at entry position `i`.
    pub fn key_at(&self, i: usize) -> (r: u32)
        requires
            i < self.keys_seq().len(),
        ensures
            r == self.keys_seq()[i as int],
            self@.contains_key(r),
    {
        proof {
            assert(self.keys_seq()[i as int] == self.entries@[i as int].0);
            assert(self.keys_seq().contains(self.keys_seq()[i as int]));
        }
        self.entries[i].0
    }

    /// The chunk stored at entry position `i`.
    pub fn chunk_at(&self, i: usize) -> (r: &Bitset)
        requires
            self.keys_distinct(),
            i < self.keys_seq().len(),
        ensures
            r.bits() == self@[self.keys_seq()[i as int]],
            forall|c: nat| self.chunks_wf(c) ==> r.inv() && r.capacity() == c,
    {
        proof {
            let k = self.keys_seq()[i as int];
            assert(self.entries@[i as int].0 == k);
            assert(self.keys_seq().contains(k));
            let j = self.idx_of(k);
            assert(0 <= j < self.entries@.len() && self.entries@[j].0 == k);
            assert(j == i);
        }
        &self.entries[i].1
    }
}

} // verus!
