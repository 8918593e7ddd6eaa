//! Energy of a whole rack of balls, and how it changes when one ball does.
use vstd::prelude::*;
use crate::ball::{Ball, energy, lemma_energy_nonneg};

verus! {

/// Sum of the energies of all balls in `s`.
pub open spec fn total_energy(s: Seq<Ball>) -> int
    decreases s.len(),
{
    if s.len() == 0 {
        0
    } else {
        total_energy(s.drop_last()) + energy(s.last())
    }
}

pub proof fn lemma_total_nonneg(s: Seq<Ball>)
    ensures
        total_energy(s) >= 0,
    decreases s.len(),
{
    if s.len() > 0 {
        lemma_total_nonneg(s.drop_last());
        lemma_energy_nonneg(s.last());
    }
}

/// Replacing one ball changes the total by the difference of the two energies.
pub proof fn lemma_total_update(s: Seq<Ball>, i: int, b: Ball)
    requires
        0 <= i < s.len(),
    ensures
        total_energy(s.update(i, b)) == total_energy(s) - energy(s[i]) + energy(b),
    decreases s.len(),
{
    let t = s.update(i, b);
    if i == s.len() - 1 {
        assert(t.drop_last() =~= s.drop_last());
    } else {
        lemma_total_update(s.drop_last(), i, b);
        assert(t.drop_last() =~= s.drop_last().update(i, b));
    }
}

/// One ball's energy is at most the total.
pub proof fn lemma_single_le_total(s: Seq<Ball>, i: int)
    requires
        0 <= i < s.len(),
    ensures
        energy(s[i]) <= total_energy(s),
{
    let z = Ball { velocity: crate::arith::Vec2 { x: 0, y: 0 }, spin: 0, ..s[i] };
    lemma_total_update(s, i, z);
    lemma_total_nonneg(s.update(i, z));
    assert(energy(z) == 0);
}

/// Two distinct balls' energies sum to at most the total.
pub proof fn lemma_pair_le_total(s: Seq<Ball>, i: int, j: int)
    requires
        0 <= i < s.len(),
        0 <= j < s.len(),
        i != j,
    ensures
        energy(s[i]) + energy(s[j]) <= total_energy(s),
{
    let z = Ball { velocity: crate::arith::Vec2 { x: 0, y: 0 }, spin: 0, ..s[i] };
    let t = s.update(i, z);
    lemma_total_update(s, i, z);
    lemma_single_le_total(t, j);
    assert(energy(z) == 0);
}

/// Balls all at rest hold no energy.
pub proof fn lemma_rest_total_zero(s: Seq<Ball>)
    requires
        forall|k: int| 0 <= k < s.len() ==> (#[trigger] s[k]).at_rest(),
    ensures
        total_energy(s) == 0,
    decreases s.len(),
{
    if s.len() > 0 {
        let d = s.drop_last();
        assert forall|k: int| 0 <= k < d.len() implies (#[trigger] d[k]).at_rest() by {
            assert(d[k] == s[k]);
        }
        lemma_rest_total_zero(d);
        assert(s.last() == s[s.len() - 1]);
    }
}

} // verus!
