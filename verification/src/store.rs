//! The sparse amplitude store.
//!
//! A register's state is a sequence of entries, each pairing a basis-state
//! index with a nonzero Gaussian-integer amplitude.  Indices are unique, so
//! the sequence denotes a finite map from basis states to amplitudes; every
//! index that is absent carries the zero amplitude.

use vstd::prelude::*;

use crate::gauss::lemma_sq_sign;
use crate::gauss::sq;

verus! {

/// One basis state of a register: an index and its amplitude `re + im*i`.
#[derive(Clone, Copy)]
pub struct Entry {
    pub idx: u64,
    pub re: i64,
    pub im: i64,
}

/// The amplitude an entry carries, as a pair of mathematical integers.
pub open spec fn amp(e: Entry) -> (int, int) {
    (e.re as int, e.im as int)
}

/// Whether some entry of `s` has index `j`.
pub open spec fn contains_idx(s: Seq<Entry>, j: u64) -> bool
    decreases s.len(),
{
    if s.len() == 0 {
        false
    } else {
        s.last().idx == j || contains_idx(s.drop_last(), j)
    }
}

/// The amplitude the store assigns to basis index `j`: the amplitude of the
/// entry carrying `j`, or zero when no entry does.
pub open spec fn amp_of(s: Seq<Entry>, j: u64) -> (int, int)
    decreases s.len(),
{
    if s.len() == 0 {
        (0int, 0int)
    } else if s.last().idx == j {
        amp(s.last())
    } else {
        amp_of(s.drop_last(), j)
    }
}

/// Indices of a store are pairwise distinct.
pub open spec fn uniq(s: Seq<Entry>) -> bool {
    forall|k1: int, k2: int| 0 <= k1 < k2 < s.len() ==> s[k1].idx != s[k2].idx
}

/// Sum of squared amplitude magnitudes over the whole store.
pub open spec fn mass(s: Seq<Entry>) -> int
    decreases s.len(),
{
    if s.len() == 0 {
        0
    } else {
        mass(s.drop_last()) + sq(amp(s.last()))
    }
}

/// Sum of squared magnitudes over the entries whose index has the bits of
/// `m` set exactly when `b` holds.
pub open spec fn mass_cond(s: Seq<Entry>, m: u64, b: bool) -> int
    decreases s.len(),
{
    if s.len() == 0 {
        0
    } else {
        mass_cond(s.drop_last(), m, b) + if (s.last().idx & m == m) == b {
            sq(amp(s.last()))
        } else {
            0
        }
    }
}

/// `contains_idx` agrees with the existence of a matching position.
pub proof fn lemma_contains_iff(s: Seq<Entry>, j: u64)
    ensures
        contains_idx(s, j) <==> exists|k: int| 0 <= k < s.len() && s[k].idx == j,
    decreases s.len(),
{
    if s.len() > 0 {
        lemma_contains_iff(s.drop_last(), j);
        if contains_idx(s, j) {
            if s.last().idx == j {
                assert(s[s.len() - 1].idx == j);
            } else {
                let k = choose|k: int| 0 <= k < s.drop_last().len() && s.drop_last()[k].idx == j;
                assert(s[k].idx == j);
            }
        }
        if exists|k: int| 0 <= k < s.len() && s[k].idx == j {
            let k = choose|k: int| 0 <= k < s.len() && s[k].idx == j;
            if k < s.len() - 1 {
                assert(s.drop_last()[k].idx == j);
            }
        }
    }
}

/// An absent index carries the zero amplitude.
pub proof fn lemma_amp_of_absent(s: Seq<Entry>, j: u64)
    requires
        !contains_idx(s, j),
    ensures
        amp_of(s, j) == (0int, 0int),
    decreases s.len(),
{
    if s.len() > 0 {
        lemma_amp_of_absent(s.drop_last(), j);
    }
}

/// With unique indices, the amplitude of index `s[k].idx` is `amp(s[k])`.
pub proof fn lemma_amp_of_entry(s: Seq<Entry>, k: int)
    requires
        uniq(s),
        0 <= k < s.len(),
    ensures
        amp_of(s, s[k].idx) == amp(s[k]),
        contains_idx(s, s[k].idx),
    decreases s.len(),
{
    if k == s.len() - 1 {
        assert(s.last() == s[k]);
    } else {
        assert(forall|k1: int, k2: int|
            0 <= k1 < k2 < s.drop_last().len() ==> s.drop_last()[k1].idx != s.drop_last()[k2].idx);
        lemma_amp_of_entry(s.drop_last(), k);
        assert(s[s.len() - 1].idx != s[k].idx);
    }
}

/// Appending an entry only changes the amplitude at the appended index.
pub proof fn lemma_amp_of_push(s: Seq<Entry>, e: Entry, j: u64)
    ensures
        amp_of(s.push(e), j) == if e.idx == j {
            amp(e)
        } else {
            amp_of(s, j)
        },
        contains_idx(s.push(e), j) == (e.idx == j || contains_idx(s, j)),
{
    assert(s.push(e).drop_last() =~= s);
    assert(s.push(e).last() == e);
}

/// Appending an entry adds its squared magnitude to the mass.
pub proof fn lemma_mass_push(s: Seq<Entry>, e: Entry, m: u64, b: bool)
    ensures
        mass(s.push(e)) == mass(s) + sq(amp(e)),
        mass_cond(s.push(e), m, b) == mass_cond(s, m, b) + if (e.idx & m == m) == b {
            sq(amp(e))
        } else {
            0
        },
{
    assert(s.push(e).drop_last() =~= s);
    assert(s.push(e).last() == e);
}

/// Mass splits over any bit condition.
pub proof fn lemma_mass_split(s: Seq<Entry>, m: u64)
    ensures
        mass(s) == mass_cond(s, m, true) + mass_cond(s, m, false),
    decreases s.len(),
{
    if s.len() > 0 {
        lemma_mass_split(s.drop_last(), m);
    }
}

/// Conditional masses are nonnegative and bounded by the full mass.
pub proof fn lemma_mass_cond_bounds(s: Seq<Entry>, m: u64, b: bool)
    ensures
        0 <= mass_cond(s, m, b),
    decreases s.len(),
{
    if s.len() > 0 {
        lemma_mass_cond_bounds(s.drop_last(), m, b);
        lemma_sq_sign(amp(s.last()));
    }
}

/// When no entry matches the mask condition, the conditional mass is zero.
pub proof fn lemma_mass_cond_none(s: Seq<Entry>, m: u64, b: bool)
    requires
        forall|k: int| 0 <= k < s.len() ==> ((#[trigger] s[k].idx & m) == m) != b,
    ensures
        mass_cond(s, m, b) == 0,
    decreases s.len(),
{
    if s.len() > 0 {
        assert(forall|k: int| 0 <= k < s.drop_last().len() ==> s.drop_last()[k] == s[k]);
        lemma_mass_cond_none(s.drop_last(), m, b);
        assert(s.last() == s[s.len() - 1]);
    }
}

/// Every single entry's squared magnitude is at most the full mass.
pub proof fn lemma_mass_lower(s: Seq<Entry>, k: int)
    requires
        0 <= k < s.len(),
    ensures
        mass(s) >= sq(amp(s[k])),
        mass(s) >= 0,
    decreases s.len(),
{
    lemma_sq_sign(amp(s.last()));
    if k == s.len() - 1 {
        lemma_mass_nonneg(s.drop_last());
        assert(s.last() == s[k]);
    } else {
        lemma_mass_lower(s.drop_last(), k);
        assert(s.drop_last()[k] == s[k]);
    }
}

/// The mass of any store is nonnegative.
pub proof fn lemma_mass_nonneg(s: Seq<Entry>)
    ensures
        mass(s) >= 0,
    decreases s.len(),
{
    if s.len() > 0 {
        lemma_mass_nonneg(s.drop_last());
        lemma_sq_sign(amp(s.last()));
    }
}

/// When every entry's squared magnitude is scaled by the same factor, the
/// mass is scaled by that factor.
pub proof fn lemma_mass_scaled(s1: Seq<Entry>, s2: Seq<Entry>, d2: int)
    requires
        s2.len() == s1.len(),
        forall|k: int| 0 <= k < s1.len() ==> sq(amp(#[trigger] s2[k])) == d2 * sq(amp(s1[k])),
    ensures
        mass(s2) == d2 * mass(s1),
    decreases s1.len(),
{
    if s1.len() == 0 {
    } else {
        assert(forall|k: int| 0 <= k < s1.drop_last().len() ==> s1.drop_last()[k] == s1[k]
            && s2.drop_last()[k] == s2[k]);
        lemma_mass_scaled(s1.drop_last(), s2.drop_last(), d2);
        assert(s1.last() == s1[s1.len() - 1] && s2.last() == s2[s2.len() - 1]);
        assert(d2 * mass(s1.drop_last()) + d2 * sq(amp(s1.last())) == d2 * (mass(s1.drop_last())
            + sq(amp(s1.last())))) by (nonlinear_arith);
    }
}

/// Rewriting every entry through an index map `f` (injective on the indices
/// that can occur) and an amplitude map `g` rewrites the denoted function
/// accordingly: the new store assigns `g` of the old amplitude to `f` of
/// each old index, and holds nothing outside the image of `f`.
pub proof fn lemma_amp_of_transform(
    s1: Seq<Entry>,
    s2: Seq<Entry>,
    good: spec_fn(u64) -> bool,
    f: spec_fn(u64) -> u64,
    g: spec_fn((int, int), u64) -> (int, int),
)
    requires
        s2.len() == s1.len(),
        forall|k: int| 0 <= k < s1.len() ==> good(#[trigger] s1[k].idx),
        forall|k: int| 0 <= k < s1.len() ==> (#[trigger] s2[k].idx) == f(s1[k].idx),
        forall|k: int| 0 <= k < s1.len() ==> amp(#[trigger] s2[k]) == g(amp(s1[k]), s1[k].idx),
        forall|j1: u64, j2: u64| good(j1) && good(j2) && #[trigger] f(j1) == #[trigger] f(j2)
            ==> j1 == j2,
        forall|j: u64| good(j) ==> #[trigger] g((0int, 0int), j) == (0int, 0int),
    ensures
        forall|j: u64| good(j) ==> #[trigger] amp_of(s2, f(j)) == g(amp_of(s1, j), j),
        forall|j2: u64| #[trigger] contains_idx(s2, j2) ==> exists|j1: u64|
            good(j1) && #[trigger] f(j1) == j2,
    decreases s1.len(),
{
    if s1.len() == 0 {
    } else {
        let t1 = s1.drop_last();
        let t2 = s2.drop_last();
        assert(forall|k: int| 0 <= k < t1.len() ==> t1[k] == s1[k] && t2[k] == s2[k]);
        lemma_amp_of_transform(t1, t2, good, f, g);
        let e1 = s1.last();
        let e2 = s2.last();
        assert(e1 == s1[s1.len() - 1] && e2 == s2[s2.len() - 1]);
        assert forall|j: u64| good(j) implies #[trigger] amp_of(s2, f(j)) == g(amp_of(s1, j), j) by {
            if e2.idx == f(j) {
                assert(f(e1.idx) == f(j));
                assert(e1.idx == j);
                assert(amp_of(s2, f(j)) == amp(e2));
                assert(amp_of(s1, j) == amp(e1));
            } else {
                assert(e1.idx != j);
                assert(amp_of(s2, f(j)) == amp_of(t2, f(j)));
                assert(amp_of(s1, j) == amp_of(t1, j));
            }
        }
        assert forall|j2: u64| #[trigger] contains_idx(s2, j2) implies exists|j1: u64|
            good(j1) && #[trigger] f(j1) == j2 by {
            if e2.idx == j2 {
                assert(good(e1.idx) && f(e1.idx) == j2);
            } else {
                assert(contains_idx(t2, j2));
            }
        }
    }
}

/// Looks up the amplitude stored for index `j`, or zero when absent.
pub fn find_amp(v: &Vec<Entry>, j: u64) -> (r: (i64, i64))
    requires
        uniq(v@),
    ensures
        (r.0 as int, r.1 as int) == amp_of(v@, j),
{
    let n = v.len();
    let mut k: usize = 0;
    while k < n
        invariant
            0 <= k <= n,
            n == v@.len(),
            uniq(v@),
            forall|k2: int| 0 <= k2 < k ==> v@[k2].idx != j,
        decreases n - k,
    {
        if v[k].idx == j {
            proof {
                lemma_amp_of_entry(v@, k as int);
            }
            return (v[k].re, v[k].im);
        }
        k += 1;
    }
    proof {
        lemma_contains_iff(v@, j);
        lemma_amp_of_absent(v@, j);
    }
    (0i64, 0i64)
}

} // verus!
