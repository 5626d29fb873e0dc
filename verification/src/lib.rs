//! Enumeration of all implicants and prime implicants of a Boolean function
//! given as an oracle over the vertices of the `n`-dimensional hypercube.
//!
//! A sub-cube is a pair `(m, f)`: `m` is the don't-care mask (free
//! coordinates) and `f` the fixed-value pattern, with `f & m == 0`. The engine
//! lifts implicants rank by rank with the face-closure rule and tags each one
//! with a primality flag.

use vstd::prelude::*;

pub mod bits;
pub mod chunk_map;
pub mod cube;
pub mod laws;
pub mod masked_count;

use crate::bits::Bitset;
use crate::chunk_map::ChunkMap;
use crate::cube::ambient;
use crate::cube::canonical;
use crate::cube::fits;
use crate::cube::is_implicant;
use crate::cube::is_prime;
use crate::cube::lemma_and_comm;
use crate::cube::lemma_cube_point;
use crate::cube::lemma_disjoint_parts;
use crate::cube::lemma_face_canonical;
use crate::cube::lemma_fits_le;
use crate::cube::lemma_flip_fixed;
use crate::cube::lemma_implicant_split;
use crate::cube::lemma_parent;
use crate::cube::lemma_popcnt_le;
use crate::cube::lemma_popcnt_parent;
use crate::cube::lemma_popcnt_zero;
use crate::cube::lemma_prime_sibling;
use crate::cube::lemma_shift_single_bit;
use crate::cube::lemma_single_bit_shift;
use crate::cube::lemma_split_fits;
use crate::cube::low_bit;
use crate::cube::parent_mask;
use crate::cube::popcnt;
use crate::cube::popcount;
use crate::cube::single_bit;
use crate::masked_count::up;

verus! {

/// The chunk map holds mask `m` with pattern `f` set in its chunk.
pub open spec fn chunk_has(cm: Map<u32, Set<u32>>, m: u32, f: u32) -> bool {
    cm.contains_key(m) && cm[m].contains(f)
}

/// The face-closure rule: `(m, f)` arises from the previous rank exactly
/// when both faces along the lowest free bit of `m` are present there.
pub open spec fn lifted(prev: Map<u32, Set<u32>>, m: u32, f: u32) -> bool
    recommends
        m != 0,
{
    chunk_has(prev, parent_mask(m), f) && chunk_has(prev, parent_mask(m), f | low_bit(m))
}

/// The chunk map is the exact record of the rank-`k` implicants of `on`:
/// its keys are rank-`k` masks with at least one bit set in their chunk
/// (the pruning invariant), chunks hold only canonical patterns, and a
/// pattern is held exactly when the sub-cube is an implicant.
pub open spec fn models_rank(cm: Map<u32, Set<u32>>, on: Set<u32>, n: u32, k: nat) -> bool {
    &&& forall|m: u32| #[trigger]
        cm.contains_key(m) ==> fits(n, m) && popcnt(m) == k && cm[m] != Set::<u32>::empty()
    &&& forall|m: u32, f: u32| #[trigger] chunk_has(cm, m, f) ==> canonical(n, m, f)
    &&& forall|m: u32, f: u32|
        #![trigger chunk_has(cm, m, f)]
        #![trigger is_implicant(on, n, m, f)]
        fits(n, m) && popcnt(m) == k && canonical(n, m, f) ==> (chunk_has(cm, m, f)
            <==> is_implicant(on, n, m, f))
}

/// What a rank-transition build step leaves behind: keys are the non-empty
/// rank-`rank` masks, and a chunk bit is set exactly when the face-closure
/// rule lifts it from the source map.
pub open spec fn lift_correct(
    into: Map<u32, Set<u32>>,
    from: Map<u32, Set<u32>>,
    n: u32,
    rank: nat,
) -> bool {
    &&& forall|m: u32| #[trigger]
        into.contains_key(m) ==> fits(n, m) && popcnt(m) == rank && into[m] != Set::<
            u32,
        >::empty()
    &&& forall|m: u32, f: u32| #[trigger] chunk_has(into, m, f) ==> canonical(n, m, f)
    &&& forall|m: u32, f: u32|
        #![trigger chunk_has(into, m, f)]
        #![trigger lifted(from, m, f)]
        fits(n, m) && popcnt(m) == rank && canonical(n, m, f) ==> (chunk_has(into, m, f)
            <==> lifted(from, m, f))
}

/// The on-set recorded by a rank-0 chunk map: the chunk at key 0, or empty.
pub open spec fn rank0_on(cm: Map<u32, Set<u32>>) -> Set<u32> {
    if cm.contains_key(0) {
        cm[0]
    } else {
        Set::<u32>::empty()
    }
}

/// Populate the rank-0 chunk from the oracle: bit `v` of the chunk at key
/// 0 is set exactly when `sample(v)` returned true. An all-zero chunk is
/// pruned, leaving the map empty.
pub fn build_rank_0<F: Fn(u32) -> bool>(sample: &F, arity: u32, into: &mut ChunkMap)
    requires
        arity < 32,
        old(into)@ == Map::<u32, Set<u32>>::empty(),
        old(into).wf((1u32 << arity) as nat),
        forall|v: u32| fits(arity, v) ==> call_requires(*sample, (v,)),
    ensures
        final(into).wf((1u32 << arity) as nat),
        models_rank(final(into)@, rank0_on(final(into)@), arity, 0),
        forall|v: u32|
            fits(arity, v) ==> call_ensures(*sample, (v,), rank0_on(final(into)@).contains(v)),
        forall|v: u32| rank0_on(final(into)@).contains(v) ==> fits(arity, v),
{
    proof {
        assert(1u32 << arity >= 1) by (bit_vector)
            requires
                arity < 32,
        ;
    }
    let full: u32 = (1u32 << arity) - 1;
    proof {
        lemma_fits_le(arity, full);
    }
    let mut chunk = Bitset::of(arity);
    let mut v: u32 = 0;
    while v <= full
        invariant
            arity < 32,
            full == ambient(arity),
            v <= full + 1,
            chunk.inv(),
            chunk.capacity() == (1u32 << arity) as nat,
            forall|w: u32| fits(arity, w) ==> call_requires(*sample, (w,)),
            forall|w: u32| #[trigger]
                chunk.bits().contains(w) ==> w < v && fits(arity, w),
            forall|w: u32|
                w < v ==> call_ensures(*sample, (w,), #[trigger] chunk.bits().contains(w)),
        decreases full + 1 - v,
    {
        proof {
            lemma_fits_le(arity, v);
        }
        if sample(v) {
            chunk.set(v);
        }
        v = v + 1;
    }
    let ghost on = chunk.bits();
    if chunk.is_any() {
        into.insert(0, chunk);
    }
    proof {
        let cm = final(into)@;
        assert(rank0_on(cm) =~= on);
        assert forall|w: u32| fits(arity, w) implies call_ensures(
            *sample,
            (w,),
            rank0_on(cm).contains(w),
        ) by {
            lemma_fits_le(arity, w);
        }
        assert(forall|g: u32| g & 0u32 == 0u32) by (bit_vector);
        assert(fits(arity, 0u32)) by (bit_vector)
            requires
                arity < 32,
        ;
        assert forall|m: u32, f: u32|
            fits(arity, m) && popcnt(m) == 0 && canonical(arity, m, f) implies (#[trigger]
        chunk_has(cm, m, f) <==> is_implicant(on, arity, m, f)) by {
            lemma_popcnt_zero(m);
            lemma_cube_point(m, f);
            if chunk_has(cm, m, f) {
                assert(on.contains(f));
                assert forall|w: u32| #[trigger] crate::cube::in_cube(0u32, f, w) implies
                    on.contains(w) by {
                    assert(w == f);
                }
                assert(is_implicant(on, arity, 0, f));
            }
            if is_implicant(on, arity, m, f) {
                assert(crate::cube::in_cube(0u32, f, f));
                assert(on.contains(f));
            }
        }
    }
}

/// Derive the rank-`rank` chunks from the rank-(`rank`-1) chunks in `from`
/// by the face-closure rule: bit `f` of the chunk at `m` is set exactly
/// when both faces along the lowest free bit of `m` are set in the chunk
/// at the parent mask. All-zero chunks are pruned.
pub fn build_rank_n(arity: u32, rank: u32, into: &mut ChunkMap, from: &ChunkMap)
    requires
        arity < 32,
        1 <= rank <= arity,
        old(into)@ == Map::<u32, Set<u32>>::empty(),
        old(into).wf((1u32 << arity) as nat),
        from.wf((1u32 << arity) as nat),
    ensures
        final(into).wf((1u32 << arity) as nat),
        lift_correct(final(into)@, from@, arity, rank as nat),
{
    let ghost cap = (1u32 << arity) as nat;
    if from.is_empty() {
        proof {
            assert forall|m: u32, f: u32|
                #![trigger chunk_has(final(into)@, m, f)]
                #![trigger lifted(from@, m, f)]
                fits(arity, m) && popcnt(m) == rank && canonical(arity, m, f) implies (
            chunk_has(final(into)@, m, f) <==> lifted(from@, m, f)) by {
                assert(!from@.contains_key(parent_mask(m)));
                assert(!final(into)@.contains_key(m));
            }
        }
        return ;
    }
    proof {
        assert(1u32 << arity >= 1) by (bit_vector)
            requires
                arity < 32,
        ;
    }
    let full: u32 = (1u32 << arity) - 1;
    proof {
        assert(ambient(arity) < 0x8000_0000u32) by (bit_vector)
            requires
                arity < 32,
        ;
    }
    let mut mv: u32 = 0;
    while mv <= full
        invariant
            arity < 32,
            1 <= rank <= arity,
            full == ambient(arity),
            full < 0x8000_0000u32,
            mv <= full + 1,
            cap == (1u32 << arity) as nat,
            from.wf(cap),
            into.wf(cap),
            forall|m: u32| #[trigger]
                into@.contains_key(m) ==> m < mv && fits(arity, m) && popcnt(m) == rank
                    && into@[m] != Set::<u32>::empty(),
            forall|m: u32, f: u32| #[trigger] chunk_has(into@, m, f) ==> canonical(arity, m, f),
            forall|m: u32, f: u32|
                #![trigger chunk_has(into@, m, f)]
                #![trigger lifted(from@, m, f)]
                m < mv && fits(arity, m) && popcnt(m) == rank && canonical(arity, m, f) ==> (
                chunk_has(into@, m, f) <==> lifted(from@, m, f)),
        decreases full + 1 - mv,
    {
        if popcount(mv) == rank {
            proof {
                lemma_popcnt_zero(mv);
                lemma_fits_le(arity, mv);
                lemma_parent(arity, mv);
                lemma_popcnt_parent(mv);
            }
            let parent = mv & (mv - 1);
            let d = mv & !parent;
            match from.get(parent) {
                None => {
                    proof {
                        assert forall|f: u32|
                            #![trigger chunk_has(into@, mv, f)]
                            #![trigger lifted(from@, mv, f)]
                            canonical(arity, mv, f) implies (
                        chunk_has(into@, mv, f) <==> lifted(from@, mv, f)) by {
                            assert(!from@.contains_key(parent));
                            assert(!into@.contains_key(mv));
                        }
                    }
                },
                Some(sub) => {
                    let mut chunk = Bitset::of(arity);
                    let space = full & !mv;
                    let mut it = up(space);
                    while !it.done
                        invariant
                            arity < 32,
                            full == ambient(arity),
                            space == (ambient(arity) & !mv),
                            fits(arity, mv),
                            mv != 0,
                            parent == parent_mask(mv),
                            d == low_bit(mv),
                            cap == (1u32 << arity) as nat,
                            it.wf(),
                            it.mask == space,
                            !it.done ==> it.submask <= it.mask,
                            sub.inv(),
                            sub.capacity() == cap,
                            sub.bits() == from@[parent],
                            from@.contains_key(parent),
                            chunk.inv(),
                            chunk.capacity() == cap,
                            forall|f: u32| #[trigger]
                                chunk.bits().contains(f) ==> f & space == f
                                    && !it.remaining().contains(f),
                            forall|f: u32|
                                f & space == f && !it.remaining().contains(f) ==> (#[trigger]
                                chunk.bits().contains(f) <==> (sub.bits().contains(f)
                                    && sub.bits().contains(f | d))),
                            forall|u: u32| #[trigger]
                                it.remaining().contains(u) ==> u & space == u,
                        decreases (if it.done {
                            0int
                        } else {
                            it.mask - it.submask + 1int
                        }),
                    {
                        let ghost prev = it;
                        let face_opt = it.next();
                        let face = face_opt.unwrap();
                        proof {
                            lemma_parent(arity, mv);
                            assert(prev.remaining().contains(face));
                            assert(face & space == face);
                            lemma_face_canonical(arity, mv, face);
                            lemma_fits_le(arity, face);
                            lemma_split_fits(arity, mv, d, face);
                            lemma_fits_le(arity, (face | d));
                            if !it.done {
                                assert(it.remaining().contains(it.submask));
                                assert(prev.remaining().contains(it.submask));
                                let s = it.submask;
                                let mk = it.mask;
                                assert(s <= mk) by (bit_vector)
                                    requires
                                        s & mk == s,
                                ;
                            }
                        }
                        if sub.is(face) && sub.is(face | d) {
                            chunk.set(face);
                        }
                    }
                    let ghost cbits = chunk.bits();
                    let ghost before = into@;
                    if chunk.is_any() {
                        into.insert(mv, chunk);
                        proof {
                            assert forall|f: u32| #[trigger]
                                chunk_has(into@, mv, f) implies canonical(arity, mv, f) by {
                                assert(cbits.contains(f));
                                lemma_face_canonical(arity, mv, f);
                            }
                            assert forall|m: u32, f: u32|
                                m != mv && #[trigger] chunk_has(into@, m, f) implies chunk_has(
                                before,
                                m,
                                f,
                            ) by {}
                            assert forall|m: u32, f: u32|
                                #[trigger] chunk_has(before, m, f) implies chunk_has(
                                into@,
                                m,
                                f,
                            ) by {
                                assert(m != mv);
                            }
                            assert forall|m: u32|
                                m != mv && #[trigger] into@.contains_key(m) implies before.contains_key(
                                m,
                            ) && into@[m] == before[m] by {}
                        }
                    }
                    proof {
                        assert forall|f: u32|
                            #![trigger chunk_has(into@, mv, f)]
                            #![trigger lifted(from@, mv, f)]
                            canonical(arity, mv, f) implies (
                        chunk_has(into@, mv, f) <==> lifted(from@, mv, f)) by {
                            lemma_face_canonical(arity, mv, f);
                            assert(f & space == f);
                            assert(cbits.contains(f) <==> (sub.bits().contains(f)
                                && sub.bits().contains(f | d)));
                        }
                    }
                },
            }
        }
        mv = mv + 1;
    }
    proof {
        assert forall|m: u32, f: u32|
            #![trigger chunk_has(final(into)@, m, f)]
            #![trigger lifted(from@, m, f)]
            fits(arity, m) && popcnt(m) == rank && canonical(arity, m, f) implies (
        chunk_has(final(into)@, m, f) <==> lifted(from@, m, f)) by {
            lemma_fits_le(arity, m);
        }
    }
}

/// A build step applied to the exact rank-`k` record yields the exact
/// rank-(`k`+1) record: the face-closure rule is sound and complete.
pub proof fn lemma_lift_models(
    into: Map<u32, Set<u32>>,
    from: Map<u32, Set<u32>>,
    on: Set<u32>,
    n: u32,
    k: nat,
)
    requires
        n < 32,
        models_rank(from, on, n, k),
        lift_correct(into, from, n, (k + 1) as nat),
    ensures
        models_rank(into, on, n, (k + 1) as nat),
{
    assert forall|m: u32, f: u32|
        #![trigger chunk_has(into, m, f)]
        #![trigger is_implicant(on, n, m, f)]
        fits(n, m) && popcnt(m) == k + 1 && canonical(n, m, f) implies (chunk_has(into, m, f)
        <==> is_implicant(on, n, m, f)) by {
        lemma_popcnt_zero(m);
        lemma_parent(n, m);
        lemma_popcnt_parent(m);
        let p = parent_mask(m);
        let d = low_bit(m);
        lemma_disjoint_parts(f, p, d);
        lemma_split_fits(n, p, d, f);
        assert((p | d) == m);
        assert(canonical(n, p, f));
        assert(canonical(n, p, (f | d)));
        lemma_implicant_split(on, n, p, d, f);
        assert(chunk_has(from, p, f) <==> is_implicant(on, n, p, f));
        assert(chunk_has(from, p, (f | d)) <==> is_implicant(on, n, p, (f | d)));
        assert(lifted(from, m, f) <==> is_implicant(on, n, m, f));
    }
}

/// No sibling of `(m, f)` within the chunk `c`: no pattern differing in a
/// single fixed coordinate is present.
pub open spec fn peer_free(c: Set<u32>, n: u32, m: u32, f: u32) -> bool {
    forall|d: u32|
        single_bit(d) && fits(n, d) && d & m == 0 ==> !(#[trigger] c.contains(f ^ d))
}

/// Within an exact rank record, the sibling test decides primality.
pub proof fn lemma_peer_free_prime(
    cm: Map<u32, Set<u32>>,
    on: Set<u32>,
    n: u32,
    k: nat,
    m: u32,
    f: u32,
)
    requires
        n < 32,
        models_rank(cm, on, n, k),
        chunk_has(cm, m, f),
    ensures
        peer_free(cm[m], n, m, f) <==> is_prime(on, n, m, f),
{
    assert(canonical(n, m, f));
    assert(is_implicant(on, n, m, f));
    if peer_free(cm[m], n, m, f) {
        assert forall|d: u32| single_bit(d) && fits(n, d) && d & m == 0 implies !is_implicant(
            on,
            n,
            (m | d),
            (f & !d),
        ) by {
            lemma_flip_fixed(n, m, f, d);
            lemma_prime_sibling(on, n, m, f, d);
            assert(!cm[m].contains(f ^ d));
            assert(canonical(n, m, (f ^ d)));
            assert(!chunk_has(cm, m, (f ^ d)));
            assert(!is_implicant(on, n, m, (f ^ d)));
        }
        assert(is_prime(on, n, m, f));
    }
    if is_prime(on, n, m, f) {
        assert forall|d: u32| single_bit(d) && fits(n, d) && d & m == 0 implies !(#[trigger]
        cm[m].contains(f ^ d)) by {
            lemma_flip_fixed(n, m, f, d);
            lemma_prime_sibling(on, n, m, f, d);
            assert(!is_implicant(on, n, (m | d), (f & !d)));
            assert(!is_implicant(on, n, m, (f ^ d)));
            if cm[m].contains(f ^ d) {
                assert(canonical(n, m, (f ^ d)));
                assert(chunk_has(cm, m, (f ^ d)));
                assert(is_implicant(on, n, m, (f ^ d)));
            }
        }
    }
}

/// Scan every chunk of the map and list one triple per set bit: the mask,
/// the fixed pattern, and whether no sibling implicant exists in the same
/// chunk. Each pair `(m, f)` is listed exactly once.
pub fn collect_rank(chunks: &ChunkMap, arity: u32) -> (out: Vec<(u32, u32, bool)>)
    requires
        arity < 32,
        chunks.wf((1u32 << arity) as nat),
        forall|m: u32| #[trigger] chunks@.contains_key(m) ==> fits(arity, m),
        forall|m: u32, f: u32| #[trigger] chunk_has(chunks@, m, f) ==> canonical(arity, m, f),
    ensures
        forall|m: u32, f: u32, b: bool| #[trigger]
            out@.contains((m, f, b)) ==> chunk_has(chunks@, m, f) && b == peer_free(
                chunks@[m],
                arity,
                m,
                f,
            ),
        forall|m: u32, f: u32| #[trigger]
            chunk_has(chunks@, m, f) ==> out@.contains(
                (m, f, peer_free(chunks@[m], arity, m, f)),
            ),
        forall|i: int, j: int|
            0 <= i < j < out@.len() ==> !(out@[i].0 == out@[j].0 && out@[i].1 == out@[j].1),
{
    let ghost cap = (1u32 << arity) as nat;
    proof {
        assert(1u32 << arity >= 1) by (bit_vector)
            requires
                arity < 32,
        ;
        chunks.lemma_keys();
        chunks.lemma_keys_no_dup();
    }
    let full: u32 = (1u32 << arity) - 1;
    let mut out: Vec<(u32, u32, bool)> = Vec::new();
    let nkeys = chunks.len();
    let mut idx: usize = 0;
    while idx < nkeys
        invariant
            arity < 32,
            full == ambient(arity),
            cap == (1u32 << arity) as nat,
            chunks.wf(cap),
            nkeys == chunks.keys_seq().len(),
            idx <= nkeys,
            forall|m: u32, f: u32| #[trigger]
                chunk_has(chunks@, m, f) ==> canonical(arity, m, f),
            forall|m: u32| #[trigger] chunks@.contains_key(m) ==> fits(arity, m),
            forall|k: u32| #[trigger] chunks@.contains_key(k) <==> chunks.keys_seq().contains(k),
            forall|i: int, j: int|
                0 <= i < j < chunks.keys_seq().len() ==> chunks.keys_seq()[i]
                    != chunks.keys_seq()[j],
            forall|m: u32, f: u32, b: bool| #[trigger]
                out@.contains((m, f, b)) ==> chunks.keys_seq().take(idx as int).contains(m)
                    && chunk_has(chunks@, m, f) && b == peer_free(chunks@[m], arity, m, f),
            forall|m: u32, f: u32|
                #![trigger chunk_has(chunks@, m, f)]
                chunk_has(chunks@, m, f) && chunks.keys_seq().take(idx as int).contains(m)
                    ==> out@.contains((m, f, peer_free(chunks@[m], arity, m, f))),
            forall|i: int, j: int|
                0 <= i < j < out@.len() ==> !(out@[i].0 == out@[j].0 && out@[i].1 == out@[j].1),
        decreases nkeys - idx,
    {
        let m = chunks.key_at(idx);
        let chunk = chunks.chunk_at(idx);
        proof {
            assert(!chunks.keys_seq().take(idx as int).contains(m)) by {
                if chunks.keys_seq().take(idx as int).contains(m) {
                    let j = choose|j: int|
                        0 <= j < idx && #[trigger] chunks.keys_seq().take(idx as int)[j] == m;
                    assert(chunks.keys_seq()[j] == m);
                    assert(chunks.keys_seq()[idx as int] == m);
                }
            }
        }
        let space = full & !m;
        let mut it = up(space);
        while !it.done
            invariant
                arity < 32,
                full == ambient(arity),
                cap == (1u32 << arity) as nat,
                space == (ambient(arity) & !m),
                chunks.wf(cap),
                nkeys == chunks.keys_seq().len(),
                idx < nkeys,
                m == chunks.keys_seq()[idx as int],
                chunks@.contains_key(m),
                !chunks.keys_seq().take(idx as int).contains(m),
                fits(arity, m),
                chunk.inv(),
                chunk.capacity() == cap,
                chunk.bits() == chunks@[m],
                it.wf(),
                it.mask == space,
                !it.done ==> it.submask <= it.mask,
                forall|u: u32| #[trigger] it.remaining().contains(u) ==> u & space == u,
                forall|m2: u32, f: u32| #[trigger]
                    chunk_has(chunks@, m2, f) ==> canonical(arity, m2, f),
                forall|m2: u32| #[trigger] chunks@.contains_key(m2) ==> fits(arity, m2),
                forall|k: u32| #[trigger]
                    chunks@.contains_key(k) <==> chunks.keys_seq().contains(k),
                forall|m2: u32, f: u32, b: bool| #[trigger]
                    out@.contains((m2, f, b)) ==> ((chunks.keys_seq().take(
                        idx as int,
                    ).contains(m2) || (m2 == m && f & space == f && !it.remaining().contains(
                        f,
                    ))) && chunk_has(chunks@, m2, f) && b == peer_free(
                        chunks@[m2],
                        arity,
                        m2,
                        f,
                    )),
                forall|m2: u32, f: u32|
                    #![trigger chunk_has(chunks@, m2, f)]
                    chunk_has(chunks@, m2, f) && chunks.keys_seq().take(idx as int).contains(
                        m2,
                    ) ==> out@.contains((m2, f, peer_free(chunks@[m2], arity, m2, f))),
                forall|f: u32|
                    f & space == f && !it.remaining().contains(f) && #[trigger] chunk_has(
                        chunks@,
                        m,
                        f,
                    ) ==> out@.contains((m, f, peer_free(chunks@[m], arity, m, f))),
                forall|i: int, j: int|
                    0 <= i < j < out@.len() ==> !(out@[i].0 == out@[j].0 && out@[i].1
                        == out@[j].1),
            decreases (if it.done {
                0int
            } else {
                it.mask - it.submask + 1int
            }),
        {
            let ghost prev = it;
            let face_opt = it.next();
            let face = face_opt.unwrap();
            proof {
                assert(prev.remaining().contains(face));
                assert(face & space == face);
                lemma_face_canonical(arity, m, face);
                lemma_fits_le(arity, face);
                if !it.done {
                    assert(it.remaining().contains(it.submask));
                    assert(prev.remaining().contains(it.submask));
                    let s = it.submask;
                    let mk = it.mask;
                    assert(s <= mk) by (bit_vector)
                        requires
                            s & mk == s,
                    ;
                }
            }
            if chunk.is(face) {
                proof {
                    assert(chunk_has(chunks@, m, face));
                }
                let mut has_peer = false;
                let mut bb: u32 = 0;
                while bb < arity
                    invariant
                        arity < 32,
                        bb <= arity,
                        cap == (1u32 << arity) as nat,
                        chunk.inv(),
                        chunk.capacity() == cap,
                        fits(arity, m),
                        canonical(arity, m, face),
                        has_peer <==> exists|c: u32|
                            c < bb && (m & (1u32 << c)) == 0 && #[trigger] chunk.bits().contains(
                                face ^ (1u32 << c),
                            ),
                    decreases arity - bb,
                {
                    let peer = 1u32 << bb;
                    proof {
                        lemma_shift_single_bit(arity, bb);
                    }
                    if (m & peer) == 0 {
                        proof {
                            lemma_and_comm(peer, m);
                            lemma_flip_fixed(arity, m, face, peer);
                            lemma_fits_le(arity, (face ^ peer));
                        }
                        if chunk.is(face ^ peer) {
                            has_peer = true;
                        }
                    }
                    bb = bb + 1;
                }
                proof {
                    if has_peer {
                        let c = choose|c: u32|
                            c < arity && (m & (1u32 << c)) == 0 && #[trigger] chunk.bits().contains(
                                face ^ (1u32 << c),
                            );
                        lemma_shift_single_bit(arity, c);
                        lemma_and_comm(1u32 << c, m);
                        assert(chunk.bits().contains(face ^ (1u32 << c)));
                        if peer_free(chunk.bits(), arity, m, face) {
                            assert(!chunk.bits().contains(face ^ (1u32 << c)));
                        }
                        assert(!peer_free(chunk.bits(), arity, m, face));
                    } else {
                        assert forall|d: u32|
                            single_bit(d) && fits(arity, d) && d & m == 0 implies !(#[trigger]
                        chunk.bits().contains(face ^ d)) by {
                            lemma_single_bit_shift(arity, d);
                            let c = choose|c: u32| c < arity && d == (1u32 << c);
                            lemma_and_comm(m, d);
                            assert(d == 1u32 << c);
                            assert((m & (1u32 << c)) == 0);
                        }
                        assert(peer_free(chunk.bits(), arity, m, face));
                    }
                }
                let ghost out_before = out@;
                out.push((m, face, !has_peer));
                proof {
                    assert(out@[out@.len() - 1] == (m, face, !has_peer));
                    assert(out@.contains((m, face, !has_peer)));
                    assert forall|t: (u32, u32, bool)| #[trigger]
                        out_before.contains(t) implies out@.contains(t) by {
                        let i = choose|i: int|
                            0 <= i < out_before.len() && #[trigger] out_before[i] == t;
                        assert(out@[i] == t);
                    }
                    assert forall|m2: u32, f: u32, b: bool| #[trigger]
                        out@.contains((m2, f, b)) implies ((chunks.keys_seq().take(
                        idx as int,
                    ).contains(m2) || (m2 == m && f & space == f && !it.remaining().contains(
                        f,
                    ))) && chunk_has(chunks@, m2, f) && b == peer_free(
                        chunks@[m2],
                        arity,
                        m2,
                        f,
                    )) by {
                        if !out_before.contains((m2, f, b)) {
                            let i = choose|i: int|
                                0 <= i < out@.len() && #[trigger] out@[i] == (m2, f, b);
                            assert(i == out@.len() - 1);
                            assert((m2, f, b) == (m, face, !has_peer));
                        }
                    }
                    assert forall|i: int, j: int|
                        0 <= i < j < out@.len() implies !(out@[i].0 == out@[j].0 && out@[i].1
                        == out@[j].1) by {
                        if j == out@.len() - 1 {
                            let t = out_before[i];
                            assert(out@[i] == t);
                            assert(out@[j] == (m, face, !has_peer));
                            assert(out_before.contains((t.0, t.1, t.2)));
                            if t.0 == m && t.1 == face {
                                assert(!prev.remaining().contains(face));
                                assert(false);
                            }
                        }
                    }
                }
            } else {
                proof {
                    assert(!chunk.bits().contains(face));
                    assert(!chunk_has(chunks@, m, face));
                }
            }
        }
        proof {
            assert forall|f: u32| #[trigger] chunk_has(chunks@, m, f) implies out@.contains(
                (m, f, peer_free(chunks@[m], arity, m, f)),
            ) by {
                lemma_face_canonical(arity, m, f);
                assert(f & space == f);
            }
        }
        idx = idx + 1;
        proof {
            assert forall|m2: u32|
                #[trigger] chunks.keys_seq().take(idx as int).contains(m2) implies (
            chunks.keys_seq().take(idx as int - 1).contains(m2) || m2 == m) by {
                let j = choose|j: int|
                    0 <= j < idx && #[trigger] chunks.keys_seq().take(idx as int)[j] == m2;
                if j < idx - 1 {
                    assert(chunks.keys_seq().take(idx as int - 1)[j] == m2);
                }
            }
            assert forall|m2: u32|
                chunks.keys_seq().take(idx as int - 1).contains(m2) || m2 == m implies
                #[trigger] chunks.keys_seq().take(idx as int).contains(m2) by {
                if m2 == m {
                    assert(chunks.keys_seq().take(idx as int)[idx as int - 1] == m);
                } else {
                    let j = choose|j: int|
                        0 <= j < idx - 1 && #[trigger] chunks.keys_seq().take(idx as int - 1)[j]
                            == m2;
                    assert(chunks.keys_seq().take(idx as int)[j] == m2);
                }
            }
        }
    }
    proof {
        assert forall|m: u32, f: u32| #[trigger] chunk_has(chunks@, m, f) implies out@.contains(
            (m, f, peer_free(chunks@[m], arity, m, f)),
        ) by {
            assert(chunks@.contains_key(m));
            assert(chunks.keys_seq().contains(m));
            let j = choose|j: int|
                0 <= j < chunks.keys_seq().len() && #[trigger] chunks.keys_seq()[j] == m;
            assert(chunks.keys_seq().take(idx as int)[j] == m);
            assert(chunks.keys_seq().take(idx as int).contains(m));
        }
    }
    out
}

/// The full report for the on-set `on`: the sequence holds every implicant
/// with its correct primality flag, holds nothing else, and repeats no
/// sub-cube.
pub open spec fn triples_correct(s: Seq<(u32, u32, bool)>, on: Set<u32>, n: u32) -> bool {
    &&& forall|m: u32, f: u32, b: bool| #[trigger]
        s.contains((m, f, b)) ==> is_implicant(on, n, m, f) && b == is_prime(on, n, m, f)
    &&& forall|m: u32, f: u32| #[trigger]
        is_implicant(on, n, m, f) ==> s.contains((m, f, is_prime(on, n, m, f)))
    &&& forall|i: int, j: int|
        0 <= i < j < s.len() ==> !(s[i].0 == s[j].0 && s[i].1 == s[j].1)
}

/// Run the rank pipeline to the end: starting from the rank-0 record,
/// ping-pong two chunk maps across the ranks, and list every implicant of
/// the recorded on-set exactly once with its primality flag.
pub fn drive(map0: ChunkMap, arity: u32) -> (out: Vec<(u32, u32, bool)>)
    requires
        arity < 32,
        map0.wf((1u32 << arity) as nat),
        models_rank(map0@, rank0_on(map0@), arity, 0),
    ensures
        triples_correct(out@, rank0_on(map0@), arity),
{
    let ghost on = rank0_on(map0@);
    let ghost cap = (1u32 << arity) as nat;
    let mut cur = map0;
    let mut other = ChunkMap::new();
    let mut out = collect_rank(&cur, arity);
    proof {
        assert forall|m: u32, f: u32, b: bool| #[trigger]
            out@.contains((m, f, b)) implies is_implicant(on, arity, m, f) && b == is_prime(
            on,
            arity,
            m,
            f,
        ) && popcnt(m) < 1 by {
            lemma_peer_free_prime(cur@, on, arity, 0, m, f);
        }
        assert forall|m: u32, f: u32|
            #[trigger] is_implicant(on, arity, m, f) && popcnt(m) < 1 implies out@.contains(
            (m, f, is_prime(on, arity, m, f)),
        ) by {
            assert(chunk_has(cur@, m, f));
            lemma_peer_free_prime(cur@, on, arity, 0, m, f);
        }
    }
    let mut rank: u32 = 1;
    while rank <= arity
        invariant
            arity < 32,
            1 <= rank <= arity + 1,
            cap == (1u32 << arity) as nat,
            cur.wf(cap),
            other.wf(cap),
            other@ == Map::<u32, Set<u32>>::empty(),
            models_rank(cur@, on, arity, (rank - 1) as nat),
            forall|m: u32, f: u32, b: bool| #[trigger]
                out@.contains((m, f, b)) ==> is_implicant(on, arity, m, f) && b == is_prime(
                    on,
                    arity,
                    m,
                    f,
                ) && popcnt(m) < rank,
            forall|m: u32, f: u32|
                #[trigger] is_implicant(on, arity, m, f) && popcnt(m) < rank ==> out@.contains(
                    (m, f, is_prime(on, arity, m, f)),
                ),
            forall|i: int, j: int|
                0 <= i < j < out@.len() ==> !(out@[i].0 == out@[j].0 && out@[i].1 == out@[j].1),
        decreases arity + 1 - rank,
    {
        build_rank_n(arity, rank, &mut other, &cur);
        proof {
            lemma_lift_models(other@, cur@, on, arity, (rank - 1) as nat);
        }
        cur.clear();
        let mut part = collect_rank(&other, arity);
        let ghost out_before = out@;
        let ghost part_seq = part@;
        proof {
            assert forall|m: u32, f: u32, b: bool| #[trigger]
                part_seq.contains((m, f, b)) implies is_implicant(on, arity, m, f) && b
                == is_prime(on, arity, m, f) && popcnt(m) == rank by {
                lemma_peer_free_prime(other@, on, arity, rank as nat, m, f);
            }
            assert forall|m: u32, f: u32|
                #[trigger] is_implicant(on, arity, m, f) && popcnt(m) == rank implies
                part_seq.contains((m, f, is_prime(on, arity, m, f))) by {
                assert(chunk_has(other@, m, f));
                lemma_peer_free_prime(other@, on, arity, rank as nat, m, f);
            }
        }
        out.append(&mut part);
        proof {
            assert forall|t: (u32, u32, bool)| #[trigger] out@.contains(t) implies (
            out_before.contains(t) || part_seq.contains(t)) by {
                let i = choose|i: int| 0 <= i < out@.len() && #[trigger] out@[i] == t;
                if i < out_before.len() {
                    assert(out_before[i] == t);
                } else {
                    assert(part_seq[i - out_before.len()] == t);
                }
            }
            assert forall|t: (u32, u32, bool)| #[trigger] out_before.contains(t) implies
                out@.contains(t) by {
                let i = choose|i: int|
                    0 <= i < out_before.len() && #[trigger] out_before[i] == t;
                assert(out@[i] == t);
            }
            assert forall|t: (u32, u32, bool)| #[trigger] part_seq.contains(t) implies
                out@.contains(t) by {
                let i = choose|i: int|
                    0 <= i < part_seq.len() && #[trigger] part_seq[i] == t;
                assert(out@[out_before.len() + i] == t);
            }
            assert forall|i: int, j: int| 0 <= i < j < out@.len() implies !(out@[i].0
                == out@[j].0 && out@[i].1 == out@[j].1) by {
                let lb = out_before.len() as int;
                if j < lb {
                    assert(out@[i] == out_before[i] && out@[j] == out_before[j]);
                } else if i >= lb {
                    assert(out@[i] == part_seq[i - lb] && out@[j] == part_seq[j - lb]);
                } else {
                    let ti = out_before[i];
                    let tj = part_seq[j - lb];
                    assert(out@[i] == ti && out@[j] == tj);
                    assert(out_before.contains((ti.0, ti.1, ti.2)));
                    assert(part_seq.contains((tj.0, tj.1, tj.2)));
                    assert(popcnt(ti.0) < rank && popcnt(tj.0) == rank);
                }
            }
        }
        let tmp = cur;
        cur = other;
        other = tmp;
        rank = rank + 1;
    }
    proof {
        assert forall|m: u32, f: u32| #[trigger] is_implicant(on, arity, m, f) implies
            out@.contains((m, f, is_prime(on, arity, m, f))) by {
            lemma_popcnt_le(arity, m);
        }
    }
    out
}

/// Scan one chunk map and hand each held `(m, f)` to the report callback
/// exactly once, flagged prime exactly when no sibling pattern is held in
/// the same chunk.
pub fn report_0n<G: FnMut(u32, u32, bool)>(report: &mut G, chunks: &ChunkMap, arity: u32)
    requires
        arity < 32,
        chunks.wf((1u32 << arity) as nat),
        forall|m: u32| #[trigger] chunks@.contains_key(m) ==> fits(arity, m),
        forall|m: u32, f: u32| #[trigger] chunk_has(chunks@, m, f) ==> canonical(arity, m, f),
        forall|g: G, m: u32, f: u32, b: bool|
            canonical(arity, m, f) ==> call_requires(g, (m, f, b)),
{
    let triples = collect_rank(chunks, arity);
    let mut i: usize = 0;
    while i < triples.len()
        invariant
            arity < 32,
            i <= triples@.len(),
            forall|m: u32, f: u32, b: bool| #[trigger]
                triples@.contains((m, f, b)) ==> chunk_has(chunks@, m, f),
            forall|m: u32, f: u32| #[trigger]
                chunk_has(chunks@, m, f) ==> canonical(arity, m, f),
            forall|g: G, m: u32, f: u32, b: bool|
                canonical(arity, m, f) ==> call_requires(g, (m, f, b)),
        decreases triples@.len() - i,
    {
        let t = triples[i];
        proof {
            assert(triples@[i as int] == t);
            assert(triples@.contains((t.0, t.1, t.2)));
        }
        report(t.0, t.1, t.2);
        i = i + 1;
    }
}

/// The triple `(m, f, b)` is a correct report for the oracle `sample`:
/// for some on-set consistent with what `sample` returns, `(m, f)` is an
/// implicant and `b` is its primality.
pub open spec fn reportable<F: Fn(u32) -> bool>(
    sample: F,
    arity: u32,
    m: u32,
    f: u32,
    b: bool,
) -> bool {
    exists|on: Set<u32>|
        (forall|v: u32| fits(arity, v) ==> call_ensures(sample, (v,), #[trigger] on.contains(v)))
            && is_implicant(on, arity, m, f) && b == is_prime(on, arity, m, f)
}

/// Enumerate every implicant of the oracle `sample` over the
/// `arity`-dimensional hypercube and report each one exactly once, with
/// `is_prime` true exactly for the prime implicants. The report callback
/// receives only `reportable` triples: the exact statement of the full
/// report is the `triples_correct` contract of `drive`.
pub fn generate<F: Fn(u32) -> bool, G: FnMut(u32, u32, bool)>(
    sample: &F,
    report: &mut G,
    arity: u32,
)
    requires
        arity < 32,
        forall|v: u32| fits(arity, v) ==> call_requires(*sample, (v,)),
        forall|g: G, m: u32, f: u32, b: bool|
            reportable(*sample, arity, m, f, b) ==> call_requires(g, (m, f, b)),
{
    let mut map0 = ChunkMap::new();
    build_rank_0(sample, arity, &mut map0);
    let ghost on = rank0_on(map0@);
    let out = drive(map0, arity);
    let mut i: usize = 0;
    while i < out.len()
        invariant
            arity < 32,
            i <= out@.len(),
            triples_correct(out@, on, arity),
            forall|v: u32|
                fits(arity, v) ==> call_ensures(*sample, (v,), #[trigger] on.contains(v)),
            forall|g: G, m: u32, f: u32, b: bool|
                reportable(*sample, arity, m, f, b) ==> call_requires(g, (m, f, b)),
        decreases out@.len() - i,
    {
        let t = out[i];
        proof {
            assert(out@[i as int] == t);
            assert(out@.contains((t.0, t.1, t.2)));
            assert(is_implicant(on, arity, t.0, t.1) && t.2 == is_prime(on, arity, t.0, t.1));
            assert(reportable(*sample, arity, t.0, t.1, t.2));
        }
        report(t.0, t.1, t.2);
        i = i + 1;
    }
}

} // verus!
