//! Lazy enumeration of all sub-masks of a given mask, in ascending order.
//!
//! The iterator starts at `0`, advances with the identity
//! `s <- ((s | !m) + 1) & m` (the sub-mask successor), and ends after
//! emitting the mask itself.

use vstd::prelude::*;

verus! {

/// Single-pass iterator over the sub-masks of `mask`, ascending from `0`
/// to `mask` itself.
pub struct UpIter {
    /// The next sub-mask to emit, when not yet done.
    pub submask: u32,
    /// The mask whose sub-masks are enumerated.
    pub mask: u32,
    /// Whether the mask itself has already been emitted.
    pub done: bool,
}

impl UpIter {
    /// The iterator is in a reachable state: its cursor is a sub-mask.
    pub open spec fn wf(self) -> bool {
        !self.done ==> self.submask & self.mask == self.submask
    }

    /// The sub-masks not yet emitted: those at or above the cursor.
    pub open spec fn remaining(self) -> Set<u32> {
        if self.done {
            Set::empty()
        } else {
            Set::new(|u: u32| u & self.mask == u && u >= self.submask)
        }
    }

    /// Emit the next sub-mask, or `None` once all have been emitted.
    ///
    /// Each call removes exactly the least remaining sub-mask from
    /// `remaining()`, so a loop over `next` visits every sub-mask of the
    /// mask exactly once, in ascending order.
    pub fn next(&mut self) -> (r: Option<u32>)
        requires
            old(self).wf(),
        ensures
            final(self).wf(),
            final(self).mask == old(self).mask,
            old(self).done ==> r is None && *final(self) == *old(self),
            !old(self).done ==> {
                &&& r == Some(old(self).submask)
                &&& old(self).remaining().contains(old(self).submask)
                &&& forall|u: u32| #[trigger]
                    old(self).remaining().contains(u) ==> u >= old(self).submask
                &&& final(self).remaining() == old(self).remaining().remove(old(self).submask)
            },
    {
        if self.done {
            return None;
        }
        let ret = self.submask;
        if self.submask == self.mask {
            let m = self.mask;
            self.done = true;
            proof {
                assert forall|u: u32| #[trigger] old(self).remaining().contains(u) implies u
                    == ret by {
                    assert(u & m == u && u >= ret && ret == m);
                    assert(u <= m) by (bit_vector)
                        requires
                            u & m == u,
                    ;
                }
                assert(final(self).remaining() =~= old(self).remaining().remove(ret));
            }
        } else {
            let s = self.submask;
            let m = self.mask;
            proof {
                lemma_submask_next(s, m);
            }
            self.submask = ((s | !m) + 1) & m;
            proof {
                assert forall|u: u32|
                    #[trigger] old(self).remaining().contains(u) && u != ret
                    implies final(self).remaining().contains(u) by {
                    lemma_submask_next_least(s, m, u);
                }
                assert forall|u: u32| #[trigger] final(self).remaining().contains(u)
                    implies old(self).remaining().contains(u) && u != ret by {
                    assert(u & m == u && u >= self.submask && self.submask > s);
                }
                assert(final(self).remaining() =~= old(self).remaining().remove(ret));
            }
        }
        Some(ret)
    }
}

/// The successor expression stays in range and moves strictly up.
proof fn lemma_submask_next(s: u32, m: u32)
    by (bit_vector)
    requires
        s & m == s,
        s != m,
    ensures
        (s | !m) < 0xffff_ffffu32,
        ((((s | !m) + 1) as u32) & m) & m == (((s | !m) + 1) as u32) & m,
        (((s | !m) + 1) as u32) & m > s,
{
}

/// No sub-mask lies strictly between a sub-mask and its successor.
proof fn lemma_submask_next_least(s: u32, m: u32, u: u32)
    by (bit_vector)
    requires
        s & m == s,
        s != m,
        u & m == u,
        u > s,
    ensures
        u >= (((s | !m) + 1) as u32) & m,
{
}

/// Start the enumeration of all sub-masks of `mask`.
pub fn up(mask: u32) -> (r: UpIter)
    ensures
        r.wf(),
        !r.done,
        r.submask == 0,
        r.mask == mask,
        r.remaining() == Set::new(|u: u32| u & mask == u),
{
    let r = UpIter { submask: 0, mask, done: false };
    proof {
        assert(0u32 & mask == 0u32) by (bit_vector);
        assert(r.remaining() =~= Set::new(|u: u32| u & mask == u));
    }
    r
}

} // verus!
