//! Vectors read as finite sets: the order of the elements carries no meaning,
//! and what a vector stands for is `v@.to_set()`.

use vstd::prelude::*;
use vstd::laws_eq::obeys_concrete_eq;

verus! {

/// Whether `x` occurs in `v`.
pub fn contains<S: PartialEq>(v: &Vec<S>, x: &S) -> (r: bool)
    requires
        obeys_concrete_eq::<S>(),
    ensures
        r == v@.contains(*x),
{
    proof {
        reveal(obeys_concrete_eq);
    }
    let mut i: usize = 0;
    while i < v.len()
        invariant
            i <= v.len(),
            obeys_concrete_eq::<S>(),
            forall|k: int| 0 <= k < i ==> v@[k] != *x,
        decreases v.len() - i,
    {
        proof {
            reveal(obeys_concrete_eq);
        }
        if v[i] == *x {
            return true;
        }
        i += 1;
    }
    false
}

/// Adds `x` to `v` unless it is already there, so a vector without repeats
/// stays without repeats.
pub fn insert<S: PartialEq + Copy>(v: &mut Vec<S>, x: S)
    requires
        obeys_concrete_eq::<S>(),
    ensures
        final(v)@.to_set() == old(v)@.to_set().insert(x),
        old(v)@.contains(x) ==> final(v)@ == old(v)@,
        !old(v)@.contains(x) ==> final(v)@ == old(v)@.push(x),
        old(v)@.no_duplicates() ==> final(v)@.no_duplicates(),
{
    if !contains(v, &x) {
        v.push(x);
        proof {
            old(v)@.lemma_push_to_set_commute(x);
        }
    } else {
        assert(old(v)@.to_set().insert(x) =~= old(v)@.to_set());
    }
}

/// A sequence without repeats is no longer than a finite set that holds all
/// its elements.
pub proof fn lemma_len_bounded<S>(v: Seq<S>, bound: Set<S>)
    requires
        v.no_duplicates(),
        v.to_set().subset_of(bound),
        bound.finite(),
    ensures
        v.len() <= bound.len(),
{
    v.unique_seq_to_set();
    vstd::set_lib::lemma_len_subset(v.to_set(), bound);
}

} // verus!
