//! Dense hypercube bitset: one bit per vertex of `{0, ..., 2^n - 1}`.
//!
//! Thin layer over `fixedbitset::FixedBitSet`. The backing set is opaque to
//! the verifier; its contents and its capacity are named by uninterpreted
//! spec functions, and each method relied on gets a trusted wrapper whose
//! contract states what the crate's source shows.

use vstd::prelude::*;

verus! {

#[verifier::external_type_specification]
#[verifier::external_body]
pub struct ExFixedBitSet(fixedbitset::FixedBitSet);

/// The set of bit positions enabled in a `FixedBitSet`.
pub uninterp spec fn fbs_bits(b: fixedbitset::FixedBitSet) -> Set<usize>;

/// The number of bits a `FixedBitSet` was created with.
pub uninterp spec fn fbs_len(b: fixedbitset::FixedBitSet) -> nat;

/// Relies on FixedBitSet::with_capacity: a set of `bits` bits, all clear.
#[verifier::external_body]
fn fbs_with_capacity(bits: usize) -> (r: fixedbitset::FixedBitSet)
    ensures
        fbs_len(r) == bits,
        fbs_bits(r) == Set::<usize>::empty(),
{
    fixedbitset::FixedBitSet::with_capacity(bits)
}

/// Relies on FixedBitSet::insert: enables one bit; panics when the bit is
/// out of bounds, which the precondition rules out.
#[verifier::external_body]
fn fbs_insert(b: &mut fixedbitset::FixedBitSet, bit: usize)
    requires
        bit < fbs_len(*old(b)),
    ensures
        fbs_len(*final(b)) == fbs_len(*old(b)),
        fbs_bits(*final(b)) == fbs_bits(*old(b)).insert(bit),
{
    b.insert(bit)
}

/// Relies on FixedBitSet::contains: true exactly for an enabled bit; bits
/// outside the capacity are always disabled.
#[verifier::external_body]
fn fbs_contains(b: &fixedbitset::FixedBitSet, bit: usize) -> (r: bool)
    ensures
        r == fbs_bits(*b).contains(bit),
{
    b.contains(bit)
}

/// Relies on FixedBitSet::is_clear: true exactly when every bit is unset.
#[verifier::external_body]
fn fbs_is_clear(b: &fixedbitset::FixedBitSet) -> (r: bool)
    ensures
        r <==> forall|i: usize| !fbs_bits(*b).contains(i),
{
    b.is_clear()
}

/// Fixed-capacity dense bitset over the vertices of an `n`-cube.
pub struct Bitset {
    backing: fixedbitset::FixedBitSet,
}

impl Bitset {
    /// The bits this set was created for: `2^n` of them.
    pub closed spec fn capacity(self) -> nat {
        fbs_len(self.backing)
    }

    /// The set bits, as vertices.
    pub closed spec fn bits(self) -> Set<u32> {
        Set::new(|v: u32| fbs_bits(self.backing).contains(v as usize))
    }

    /// Every enabled bit of the backing set is a vertex below the capacity.
    pub closed spec fn inv(self) -> bool {
        (forall|i: usize| #[trigger] fbs_bits(self.backing).contains(i) ==> i < fbs_len(
            self.backing,
        )) && fbs_len(self.backing) <= 0x8000_0000
    }

    /// Create a zeroed bitset with one bit per vertex of the `nbits`-cube.
    pub fn of(nbits: u32) -> (r: Bitset)
        requires
            nbits < 32,
        ensures
            r.inv(),
            r.capacity() == (1u32 << nbits),
            r.bits() == Set::<u32>::empty(),
    {
        proof {
            assert(1u32 << nbits >= 1 && 1u32 << nbits <= 0x8000_0000u32) by (bit_vector)
                requires
                    nbits < 32,
            ;
        }
        let len: usize = (1u32 << nbits) as usize;
        let r = Bitset { backing: fbs_with_capacity(len) };
        proof {
            assert(r.bits() =~= Set::<u32>::empty());
        }
        r
    }

    /// Set bit `mask`.
    pub fn set(&mut self, mask: u32)
        requires
            old(self).inv(),
            mask < old(self).capacity(),
        ensures
            final(self).inv(),
            final(self).capacity() == old(self).capacity(),
            final(self).bits() == old(self).bits().insert(mask),
    {
        fbs_insert(&mut self.backing, mask as usize);
        proof {
            assert(final(self).bits() =~= old(self).bits().insert(mask));
        }
    }

    /// Test bit `mask`. Testing beyond the capacity is a caller error.
    pub fn is(&self, mask: u32) -> (r: bool)
        requires
            self.inv(),
            mask < self.capacity(),
        ensures
            r == self.bits().contains(mask),
    {
        fbs_contains(&self.backing, mask as usize)
    }

    /// True exactly when some bit is set.
    pub fn is_any(&self) -> (r: bool)
        requires
            self.inv(),
        ensures
            r <==> self.bits() != Set::<u32>::empty(),
    {
        let clear = fbs_is_clear(&self.backing);
        proof {
            if clear {
                assert(self.bits() =~= Set::<u32>::empty());
            } else {
                let i = choose|i: usize| fbs_bits(self.backing).contains(i);
                assert(fbs_bits(self.backing).contains(i));
                assert(i < 0x1_0000_0000);
                assert(self.bits().contains(i as u32));
                assert(self.bits() != Set::<u32>::empty());
            }
        }
        !clear
    }
}

} // verus!
