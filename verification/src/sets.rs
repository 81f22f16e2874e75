//! Walking and combining sets of indices.

use std::collections::HashSet;
use vstd::prelude::*;

verus! {

broadcast use vstd::std_specs::hash::group_hash_axioms;

/// The members of `set`, each once, in whatever order the set is walked.
pub fn members(set: &HashSet<usize>) -> (out: Vec<usize>)
    ensures
        out@.no_duplicates(),
        out@.to_set() == set@,
        out@.len() == set@.len(),
        set@.finite(),
{
    let mut out: Vec<usize> = Vec::new();
    for v in it: set.iter()
        invariant
            it.seq().unref().to_set() == set@,
            it.seq().no_duplicates(),
            it.seq().len() == set@.len(),
            out@ == it.seq().unref().take(it.index()),
            it.index() == it.seq().len() ==> out@.to_set() == set@,
    {
        proof {
            assert(it.seq().unref().take(it.index() + 1) =~= it.seq().unref().take(
                it.index(),
            ).push(*v));
            assert(it.index() + 1 == it.seq().len() ==> it.seq().unref().take(it.index() + 1)
                =~= it.seq().unref());
        }
        out.push(*v);
    }
    proof {
        vstd::seq_lib::seq_to_set_is_finite(out@);
    }
    out
}

/// What the two sets share.
pub fn intersection(a: &HashSet<usize>, b: &HashSet<usize>) -> (out: HashSet<usize>)
    ensures
        out@ == a@.intersect(b@),
        out@.finite(),
{
    let (smaller, larger) = if a.len() <= b.len() {
        (a, b)
    } else {
        (b, a)
    };
    let walk = members(smaller);
    let mut out: HashSet<usize> = HashSet::new();
    for i in 0..walk.len()
        invariant
            out@ == walk@.take(i as int).to_set().intersect(larger@),
    {
        proof {
            assert(walk@.take(i + 1) =~= walk@.take(i as int).push(walk@[i as int]));
            walk@.take(i as int).lemma_push_to_set_commute(walk@[i as int]);
        }
        if larger.contains(&walk[i]) {
            out.insert(walk[i]);
        }
    }
    proof {
        assert(walk@.take(walk@.len() as int) =~= walk@);
        assert(a@.intersect(b@) =~= smaller@.intersect(larger@));
        vstd::set_lib::lemma_len_intersect(smaller@, larger@);
    }
    out
}

/// How many members the two sets share.
pub fn intersection_len(a: &HashSet<usize>, b: &HashSet<usize>) -> (count: usize)
    ensures
        count == a@.intersect(b@).len(),
{
    let both = intersection(a, b);
    both.len()
}

/// The members of `a` that `b` does not have, each once.
pub fn difference(a: &HashSet<usize>, b: &HashSet<usize>) -> (out: Vec<usize>)
    ensures
        out@.no_duplicates(),
        out@.to_set() == a@.difference(b@),
        out@.len() <= a@.len(),
{
    let walk = members(a);
    let mut out: Vec<usize> = Vec::new();
    for i in 0..walk.len()
        invariant
            walk@.no_duplicates(),
            out@.no_duplicates(),
            out@.len() <= i,
            out@.to_set() == walk@.take(i as int).to_set().difference(b@),
    {
        proof {
            assert(walk@.take(i + 1) =~= walk@.take(i as int).push(walk@[i as int]));
            walk@.take(i as int).lemma_push_to_set_commute(walk@[i as int]);
            out@.lemma_push_to_set_commute(walk@[i as int]);
            if out@.contains(walk@[i as int]) {
                assert(out@.to_set().contains(walk@[i as int]));
                assert(walk@.take(i as int).contains(walk@[i as int]));
                let j = choose|j: int| 0 <= j < i && walk@.take(i as int)[j] == walk@[i as int];
                assert(walk@[j] == walk@[i as int]);
            }
        }
        if !b.contains(&walk[i]) {
            out.push(walk[i]);
        }
    }
    proof {
        assert(walk@.take(walk@.len() as int) =~= walk@);
    }
    out
}

/// A second set with the same members.
pub fn duplicate(set: &HashSet<usize>) -> (out: HashSet<usize>)
    ensures
        out@ == set@,
        out@.finite(),
{
    intersection(set, set)
}

/// The set of the indices listed.
pub fn collected(list: &Vec<usize>) -> (out: HashSet<usize>)
    ensures
        out@ == list@.to_set(),
        out@.finite(),
{
    let mut out: HashSet<usize> = HashSet::new();
    for i in 0..list.len()
        invariant
            out@ == list@.take(i as int).to_set(),
    {
        proof {
            assert(list@.take(i + 1) =~= list@.take(i as int).push(list@[i as int]));
            list@.take(i as int).lemma_push_to_set_commute(list@[i as int]);
        }
        out.insert(list[i]);
    }
    proof {
        assert(list@.take(list@.len() as int) =~= list@);
        vstd::seq_lib::seq_to_set_is_finite(list@);
    }
    out
}

} // verus!
