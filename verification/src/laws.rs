//! The engine's guarantees, stated on their own: what a full report (a
//! sequence satisfying `triples_correct`) says about the on-set it was
//! produced for.

use vstd::prelude::*;

use crate::cube::ambient;
use crate::cube::fits;
use crate::cube::is_implicant;
use crate::cube::is_prime;
use crate::cube::lemma_cube_fits;
use crate::cube::lemma_cube_point;
use crate::cube::lemma_fits_le;
use crate::cube::lemma_flip_fixed;
use crate::cube::lemma_missing_bit;
use crate::cube::lemma_prime_sibling;
use crate::cube::lemma_split_fits;
use crate::cube::low_bit;
use crate::cube::single_bit;
use crate::triples_correct;

verus! {

/// The on-set of the constant-true oracle: every vertex of the `n`-cube.
pub open spec fn full_on(n: u32) -> Set<u32> {
    Set::new(|v: u32| fits(n, v))
}

/// An implicant is prime exactly when no sibling pattern, differing in one
/// fixed coordinate, is an implicant at the same mask. This is the same
/// predicate as ruling out every one-bit extension of the mask.
pub proof fn law_prime_characterization(on: Set<u32>, n: u32, m: u32, f: u32)
    requires
        n < 32,
        is_implicant(on, n, m, f),
    ensures
        is_prime(on, n, m, f) <==> (forall|d: u32|
            single_bit(d) && fits(n, d) && d & m == 0 ==> !(#[trigger] is_implicant(
                on,
                n,
                m,
                (f ^ d),
            ))),
{
    if is_prime(on, n, m, f) {
        assert forall|d: u32| single_bit(d) && fits(n, d) && d & m == 0 implies !(#[trigger]
        is_implicant(on, n, m, (f ^ d))) by {
            lemma_prime_sibling(on, n, m, f, d);
            assert(!is_implicant(on, n, (m | d), (f & !d)));
        }
    }
    if forall|d: u32|
        single_bit(d) && fits(n, d) && d & m == 0 ==> !(#[trigger] is_implicant(
            on,
            n,
            m,
            (f ^ d),
        )) {
        assert forall|d: u32| single_bit(d) && fits(n, d) && d & m == 0 implies !is_implicant(
            on,
            n,
            (m | d),
            (f & !d),
        ) by {
            lemma_prime_sibling(on, n, m, f, d);
            assert(!is_implicant(on, n, m, (f ^ d)));
        }
    }
}

/// A sub-cube appears in a full report exactly when it is an implicant,
/// and appears flagged prime exactly when it is a prime implicant.
pub proof fn law_reported_exactly(s: Seq<(u32, u32, bool)>, on: Set<u32>, n: u32, m: u32, f: u32)
    requires
        triples_correct(s, on, n),
    ensures
        s.contains((m, f, true)) <==> is_prime(on, n, m, f),
        s.contains((m, f, is_prime(on, n, m, f))) <==> is_implicant(on, n, m, f),
{
}

/// Round trip: every vertex of every reported sub-cube lies in the on-set.
pub proof fn law_round_trip(
    s: Seq<(u32, u32, bool)>,
    on: Set<u32>,
    n: u32,
    m: u32,
    f: u32,
    b: bool,
    v: u32,
)
    requires
        triples_correct(s, on, n),
        s.contains((m, f, b)),
        crate::cube::in_cube(m, f, v),
    ensures
        on.contains(v),
{
    assert(is_implicant(on, n, m, f));
}

/// Everything reported is a canonical sub-cube within the `n`-cube.
pub proof fn law_reported_in_range(
    s: Seq<(u32, u32, bool)>,
    on: Set<u32>,
    n: u32,
    m: u32,
    f: u32,
    b: bool,
)
    requires
        n < 32,
        triples_correct(s, on, n),
        s.contains((m, f, b)),
    ensures
        f & m == 0,
        m < (1u32 << n),
        f < (1u32 << n),
{
    lemma_fits_le(n, m);
    lemma_fits_le(n, f);
}

/// No sub-cube is reported twice.
pub proof fn law_no_duplicate_reports(
    s: Seq<(u32, u32, bool)>,
    on: Set<u32>,
    n: u32,
    i: int,
    j: int,
)
    requires
        triples_correct(s, on, n),
        0 <= i < j < s.len(),
    ensures
        !(s[i].0 == s[j].0 && s[i].1 == s[j].1),
{
}

/// For the empty on-set, the report is empty.
pub proof fn law_constant_false(s: Seq<(u32, u32, bool)>, n: u32)
    requires
        n < 32,
        triples_correct(s, Set::<u32>::empty(), n),
    ensures
        s == Seq::<(u32, u32, bool)>::empty(),
{
    if s.len() > 0 {
        let t = s[0];
        assert(s.contains((t.0, t.1, t.2)));
        assert(is_implicant(Set::<u32>::empty(), n, t.0, t.1));
        lemma_cube_point(t.0, t.1);
        assert(crate::cube::in_cube(t.0, t.1, t.1));
        assert(Set::<u32>::empty().contains(t.1));
        assert(false);
    }
    assert(s =~= Seq::<(u32, u32, bool)>::empty());
}

/// For the constant-true oracle, the whole cube is reported prime, and it
/// is the only prime report.
pub proof fn law_constant_true(s: Seq<(u32, u32, bool)>, n: u32)
    requires
        n < 32,
        triples_correct(s, full_on(n), n),
    ensures
        s.contains((ambient(n), 0u32, true)),
        forall|m: u32, f: u32| #[trigger] s.contains((m, f, true)) ==> m == ambient(n) && f == 0,
{
    let on = full_on(n);
    lemma_fits_le(n, ambient(n));
    assert(fits(n, 0u32)) by (bit_vector)
        requires
            n < 32,
    ;
    assert(0u32 & ambient(n) == 0u32) by (bit_vector);
    lemma_cube_fits(n, ambient(n), 0u32);
    assert forall|v: u32| #[trigger] crate::cube::in_cube(ambient(n), 0u32, v) implies
        on.contains(v) by {
        assert(fits(n, v));
    }
    assert(is_implicant(on, n, ambient(n), 0u32));
    assert forall|d: u32|
        single_bit(d) && fits(n, d) && d & ambient(n) == 0 implies !is_implicant(
        on,
        n,
        (ambient(n) | d),
        (0u32 & !d),
    ) by {
        assert(d == 0);
    }
    assert(is_prime(on, n, ambient(n), 0u32));
    assert(s.contains((ambient(n), 0u32, true)));
    assert forall|m: u32, f: u32| #[trigger] s.contains((m, f, true)) implies m == ambient(n)
        && f == 0 by {
        assert(is_prime(on, n, m, f));
        assert(is_implicant(on, n, m, f));
        if m != ambient(n) {
            lemma_missing_bit(n, m);
            let d = low_bit(ambient(n) & !m);
            lemma_flip_fixed(n, m, f, d);
            lemma_split_fits(n, m, d, f);
            let f2 = f & !d;
            assert(fits(n, f2));
            lemma_cube_fits(n, (m | d), f2);
            assert forall|v: u32| #[trigger] crate::cube::in_cube((m | d), f2, v) implies
                on.contains(v) by {
                assert(fits(n, v));
            }
            assert(is_implicant(on, n, (m | d), f2));
            assert(false);
        }
        assert(f & ambient(n) == 0);
        assert(f & ambient(n) == f);
    }
}

/// Two full reports for the same on-set are equal as multisets: the run is
/// idempotent up to reporting order.
pub proof fn law_idempotent(
    s1: Seq<(u32, u32, bool)>,
    s2: Seq<(u32, u32, bool)>,
    on: Set<u32>,
    n: u32,
)
    requires
        triples_correct(s1, on, n),
        triples_correct(s2, on, n),
    ensures
        s1.to_multiset() == s2.to_multiset(),
{
    broadcast use vstd::seq_lib::group_to_multiset_ensures;

    lemma_no_dup_triples(s1, on, n);
    lemma_no_dup_triples(s2, on, n);
    s1.lemma_multiset_has_no_duplicates();
    s2.lemma_multiset_has_no_duplicates();
    assert forall|t: (u32, u32, bool)| #[trigger] s1.contains(t) implies s2.contains(t) by {
        assert(s1.contains((t.0, t.1, t.2)));
        assert(s2.contains((t.0, t.1, is_prime(on, n, t.0, t.1))));
    }
    assert forall|t: (u32, u32, bool)| #[trigger] s2.contains(t) implies s1.contains(t) by {
        assert(s2.contains((t.0, t.1, t.2)));
        assert(s1.contains((t.0, t.1, is_prime(on, n, t.0, t.1))));
    }
    assert forall|t: (u32, u32, bool)|
        #[trigger] s1.to_multiset().count(t) == s2.to_multiset().count(t) by {
        if s1.contains(t) {
            assert(s1.to_multiset().count(t) == 1 && s2.to_multiset().count(t) == 1);
        } else {
            assert(s1.to_multiset().count(t) == 0 && s2.to_multiset().count(t) == 0);
        }
    }
    assert(s1.to_multiset() =~= s2.to_multiset());
}

/// A full report repeats no triple: the pairs are distinct, and the flag
/// of a pair is a function of the pair.
proof fn lemma_no_dup_triples(s: Seq<(u32, u32, bool)>, on: Set<u32>, n: u32)
    requires
        triples_correct(s, on, n),
    ensures
        s.no_duplicates(),
{
    assert forall|i: int, j: int|
        0 <= i < s.len() && 0 <= j < s.len() && i != j implies s[i] != s[j] by {
        if i < j {
            assert(!(s[i].0 == s[j].0 && s[i].1 == s[j].1));
        } else {
            assert(!(s[j].0 == s[i].0 && s[j].1 == s[i].1));
        }
    }
}

} // verus!
