//! The mathematical model: sub-cubes of the Boolean hypercube, implicants,
//! prime implicants, and the bit-level lemmas the engine's proofs rest on.
//!
//! A sub-cube is a pair `(m, f)` with `f & m == 0`: bit `i` of `m` says that
//! coordinate `i` is free, and the bits of `f` outside `m` fix the remaining
//! coordinates. Its vertex set is `{ f | s : s sub-mask of m }`.

use vstd::prelude::*;

verus! {

/// All-ones mask of the low `n` bits: the vertex range of the `n`-cube.
pub open spec fn ambient(n: u32) -> u32
    recommends
        n < 32,
{
    ((1u32 << n) - 1) as u32
}

/// `x` lies within the low `n` bits.
pub open spec fn fits(n: u32, x: u32) -> bool {
    x & ambient(n) == x
}

/// `d` has exactly one bit set.
pub open spec fn single_bit(d: u32) -> bool {
    d != 0 && d & ((d - 1) as u32) == 0
}

/// `(m, f)` is a canonical sub-cube of the `n`-cube.
pub open spec fn canonical(n: u32, m: u32, f: u32) -> bool {
    fits(n, m) && fits(n, f) && f & m == 0
}

/// Vertex `v` lies in the sub-cube `(m, f)`.
pub open spec fn in_cube(m: u32, f: u32, v: u32) -> bool {
    v & !m == f
}

/// `m` with its lowest set bit cleared: the chosen parent mask.
pub open spec fn parent_mask(m: u32) -> u32
    recommends
        m != 0,
{
    m & ((m - 1) as u32)
}

/// The lowest set bit of `m`: the coordinate collapsed by the parent choice.
pub open spec fn low_bit(m: u32) -> u32
    recommends
        m != 0,
{
    m & !parent_mask(m)
}

/// `(m, f)` is an implicant of the on-set `on`: every vertex of the sub-cube
/// is on.
pub open spec fn is_implicant(on: Set<u32>, n: u32, m: u32, f: u32) -> bool {
    canonical(n, m, f) && forall|v: u32| #[trigger] in_cube(m, f, v) ==> on.contains(v)
}

/// `(m, f)` is a prime implicant: an implicant that no single free-bit
/// extension keeps an implicant.
pub open spec fn is_prime(on: Set<u32>, n: u32, m: u32, f: u32) -> bool {
    is_implicant(on, n, m, f) && forall|d: u32|
        single_bit(d) && fits(n, d) && d & m == 0 ==> !is_implicant(on, n, (m | d), (f & !d))
}

/// Number of set bits of `x`: the rank of a mask.
pub open spec fn popcnt(x: u32) -> nat
    decreases x,
{
    if x == 0 {
        0
    } else {
        ((x % 2) + popcnt(x / 2)) as nat
    }
}

/// `fits` is the same as being bounded by the ambient mask.
pub proof fn lemma_fits_le(n: u32, x: u32)
    by (bit_vector)
    requires
        n < 32,
    ensures
        fits(n, x) <==> x <= ambient(n),
        fits(n, x) <==> x < (1u32 << n),
        fits(n, ambient(n)),
{
}

/// Splitting a sub-cube along one free coordinate `d` yields its two faces.
pub proof fn lemma_cube_split(m: u32, d: u32, f: u32)
    by (bit_vector)
    requires
        single_bit(d),
        d & m == 0,
        f & (m | d) == 0,
    ensures
        forall|v: u32| #[trigger] in_cube(m | d, f, v) <==> (in_cube(m, f, v) || in_cube(
            m,
            f | d,
            v,
        )),
        f & m == 0,
        (f | d) & m == 0,
{
}

/// Bound bookkeeping for a split: masks and faces stay within the `n`-cube.
pub proof fn lemma_split_fits(n: u32, m: u32, d: u32, f: u32)
    by (bit_vector)
    requires
        n < 32,
        fits(n, m),
        fits(n, d),
        fits(n, f),
    ensures
        fits(n, m | d),
        fits(n, f | d),
{
}

/// Decomposing a non-zero mask into its parent and its lowest set bit.
pub proof fn lemma_parent(n: u32, m: u32)
    by (bit_vector)
    requires
        m != 0,
        n < 32,
        fits(n, m),
    ensures
        single_bit(low_bit(m)),
        low_bit(m) & parent_mask(m) == 0,
        (parent_mask(m) | low_bit(m)) == m,
        fits(n, parent_mask(m)),
        fits(n, low_bit(m)),
        low_bit(m) & !m == 0,
{
}

/// A sub-cube contains its own fixed pattern, and the rank-0 cube `(0, f)`
/// is the single vertex `f`.
pub proof fn lemma_cube_point(m: u32, f: u32)
    by (bit_vector)
    requires
        f & m == 0,
    ensures
        in_cube(m, f, f),
        forall|v: u32| #[trigger] in_cube(0u32, f, v) <==> v == f,
{
}

/// Every vertex of a canonical sub-cube lies within the `n`-cube.
pub proof fn lemma_cube_fits(n: u32, m: u32, f: u32)
    by (bit_vector)
    requires
        n < 32,
        fits(n, m),
        fits(n, f),
        f & m == 0,
    ensures
        forall|v: u32| #[trigger] in_cube(m, f, v) ==> fits(n, v),
{
}

/// Flipping a fixed coordinate `d` of a canonical pattern: the flip stays
/// canonical, and it is the other face of the `d`-extension.
pub proof fn lemma_flip_fixed(n: u32, m: u32, f: u32, d: u32)
    by (bit_vector)
    requires
        n < 32,
        single_bit(d),
        fits(n, d),
        d & m == 0,
        fits(n, f),
        f & m == 0,
    ensures
        (f ^ d) & m == 0,
        fits(n, f ^ d),
        (f & !d) & (m | d) == 0,
        f & d == 0 ==> (f & !d) == f && ((f & !d) | d) == (f ^ d),
        f & d != 0 ==> (f & !d) == (f ^ d) && ((f & !d) | d) == f,
{
}

/// Parity step for the parent mask, used to compute its rank.
proof fn lemma_parent_step(m: u32)
    by (bit_vector)
    requires
        m != 0,
    ensures
        m % 2 == 1 ==> parent_mask(m) == ((m - 1) as u32) && ((m - 1) as u32) % 2 == 0 && ((m
            - 1) as u32) / 2 == m / 2,
        m % 2 == 0 ==> m / 2 != 0 && parent_mask(m) == 2 * parent_mask(m / 2),
{
}

/// Halving a bounded value keeps it bounded, one bit lower.
proof fn lemma_fits_half(n: u32, m: u32)
    by (bit_vector)
    requires
        n < 32,
        fits(n, m),
    ensures
        n == 0 ==> m == 0,
        n > 0 ==> fits((n - 1) as u32, m / 2),
{
}

/// Only the zero mask has rank 0.
pub proof fn lemma_popcnt_zero(m: u32)
    ensures
        popcnt(m) == 0 <==> m == 0,
    decreases m,
{
    if m != 0 {
        if m % 2 == 0 {
            lemma_popcnt_zero(m / 2);
        }
    }
}

/// Clearing the lowest set bit lowers the rank by exactly one.
pub proof fn lemma_popcnt_parent(m: u32)
    requires
        m != 0,
    ensures
        popcnt(parent_mask(m)) + 1 == popcnt(m),
    decreases m,
{
    lemma_parent_step(m);
    if m % 2 == 1 {
        assert(popcnt(parent_mask(m)) == popcnt(m / 2));
    } else {
        lemma_popcnt_parent(m / 2);
        let k = parent_mask(m / 2);
        assert(parent_mask(m) == 2 * k);
        assert(popcnt((2 * k) as u32) == popcnt(k)) by {
            assert(((2 * k) as u32) % 2 == 0 && ((2 * k) as u32) / 2 == k);
        }
    }
}

/// A mask within the `n`-cube has rank at most `n`.
pub proof fn lemma_popcnt_le(n: u32, m: u32)
    requires
        n < 32,
        fits(n, m),
    ensures
        popcnt(m) <= n,
    decreases n,
{
    lemma_fits_half(n, m);
    if n == 0 {
    } else {
        lemma_popcnt_le((n - 1) as u32, m / 2);
    }
}

/// Every single bit within the `n`-cube is a shift of 1.
pub proof fn lemma_single_bit_shift(n: u32, d: u32)
    requires
        n < 32,
        single_bit(d),
        fits(n, d),
    ensures
        exists|b: u32| b < n && d == (1u32 << b),
    decreases n,
{
    assert(n != 0) by (bit_vector)
        requires
            single_bit(d),
            fits(n, d),
            n < 32,
    ;
    if d == 1 {
        assert(1u32 == (1u32 << 0u32)) by (bit_vector);
        assert(0u32 < n && d == (1u32 << 0u32));
    } else {
        assert(d % 2 == 0 && single_bit(d / 2) && fits((n - 1) as u32, d / 2)) by (bit_vector)
            requires
                single_bit(d),
                fits(n, d),
                d != 1u32,
                n < 32,
                n != 0,
        ;
        lemma_single_bit_shift((n - 1) as u32, d / 2);
        let b = choose|b: u32| b < (n - 1) as u32 && (d / 2) == (1u32 << b);
        assert(d == (1u32 << ((b + 1) as u32))) by (bit_vector)
            requires
                d % 2 == 0,
                (d / 2) == (1u32 << b),
                b < 31u32,
        ;
        assert(((b + 1) as u32) < n && d == (1u32 << ((b + 1) as u32)));
    }
}

/// Shifts of 1 below `n` are single bits within the `n`-cube.
pub proof fn lemma_shift_single_bit(n: u32, b: u32)
    by (bit_vector)
    requires
        n < 32,
        b < n,
    ensures
        single_bit(1u32 << b),
        fits(n, 1u32 << b),
{
}

/// A mask that is not the whole ambient mask misses a free coordinate.
pub proof fn lemma_missing_bit(n: u32, m: u32)
    by (bit_vector)
    requires
        n < 32,
        fits(n, m),
        m != ambient(n),
    ensures
        (ambient(n) & !m) != 0,
        single_bit(low_bit(ambient(n) & !m)),
        low_bit(ambient(n) & !m) & m == 0,
        fits(n, low_bit(ambient(n) & !m)),
{
}

/// The candidate fixed patterns for mask `m` are exactly the sub-masks of
/// the complement of `m` within the ambient mask.
pub proof fn lemma_face_canonical(n: u32, m: u32, f: u32)
    by (bit_vector)
    requires
        n < 32,
        fits(n, m),
    ensures
        f & (ambient(n) & !m) == f <==> (fits(n, f) && f & m == 0),
{
}

/// Bitwise and is commutative.
pub proof fn lemma_and_comm(a: u32, b: u32)
    by (bit_vector)
    ensures
        a & b == b & a,
{
}

/// Distributing a disjointness over the two parts of a mask.
pub proof fn lemma_disjoint_parts(f: u32, p: u32, d: u32)
    by (bit_vector)
    ensures
        (f & (p | d) == 0) <==> (f & p == 0 && f & d == 0),
        (f & p == 0 && d & p == 0) ==> ((f | d) & p == 0),
{
}

/// Rank of any 32-bit mask is at most 32.
pub proof fn lemma_popcnt_le32(x: u32)
    ensures
        popcnt(x) <= 32,
{
    if x != 0 {
        assert(fits(31u32, x / 2)) by (bit_vector);
        lemma_popcnt_le(31, x / 2);
    }
}

/// Count the set bits of `x`: the rank of a mask, computed.
pub fn popcount(x: u32) -> (r: u32)
    ensures
        r == popcnt(x),
{
    proof {
        lemma_popcnt_le32(x);
    }
    let mut v: u32 = x;
    let mut r: u32 = 0;
    while v != 0
        invariant
            r + popcnt(v) == popcnt(x),
            popcnt(x) <= 32,
        decreases v,
    {
        r = r + v % 2;
        v = v / 2;
    }
    r
}

/// An implicant may be split into the two faces along a free coordinate
/// `d`; it is one exactly when both faces are.
pub proof fn lemma_implicant_split(on: Set<u32>, n: u32, m: u32, d: u32, f: u32)
    requires
        n < 32,
        fits(n, m),
        fits(n, d),
        single_bit(d),
        d & m == 0,
        fits(n, f),
        f & (m | d) == 0,
    ensures
        is_implicant(on, n, (m | d), f) <==> (is_implicant(on, n, m, f) && is_implicant(
            on,
            n,
            m,
            (f | d),
        )),
{
    lemma_cube_split(m, d, f);
    lemma_split_fits(n, m, d, f);
    if is_implicant(on, n, (m | d), f) {
        assert forall|v: u32| #[trigger] in_cube(m, f, v) implies on.contains(v) by {
            assert(in_cube(m | d, f, v));
        }
        assert forall|v: u32| #[trigger] in_cube(m, (f | d), v) implies on.contains(v) by {
            assert(in_cube(m | d, f, v));
        }
    }
    if is_implicant(on, n, m, f) && is_implicant(on, n, m, (f | d)) {
        assert forall|v: u32| #[trigger] in_cube(m | d, f, v) implies on.contains(v) by {
            assert(in_cube(m, f, v) || in_cube(m, f | d, v));
        }
    }
}

/// Sibling form of the primality test: extending an implicant along a fixed
/// coordinate `d` succeeds exactly when the sibling pattern `f ^ d` is an
/// implicant at the same mask.
pub proof fn lemma_prime_sibling(on: Set<u32>, n: u32, m: u32, f: u32, d: u32)
    requires
        n < 32,
        is_implicant(on, n, m, f),
        single_bit(d),
        fits(n, d),
        d & m == 0,
    ensures
        is_implicant(on, n, (m | d), (f & !d)) <==> is_implicant(on, n, m, (f ^ d)),
{
    lemma_flip_fixed(n, m, f, d);
    lemma_implicant_split(on, n, m, d, (f & !d));
}

} // verus!
