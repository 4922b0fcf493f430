use std::collections::HashMap;
use vstd::prelude::*;

verus! {

broadcast use {vstd::std_specs::hash::group_hash_axioms, vstd::seq_lib::group_seq_properties};

/// The ids of `s` are in strictly increasing order.
pub open spec fn strictly_increasing(s: Seq<u32>) -> bool {
    forall|i: int, j: int| 0 <= i < j < s.len() ==> s[i] < s[j]
}

/// Inserts `x` into a strictly increasing vector that does not hold it yet.
fn insert_sorted(v: &mut Vec<u32>, x: u32)
    requires
        strictly_increasing(old(v)@),
        !old(v)@.contains(x),
    ensures
        strictly_increasing(final(v)@),
        final(v)@.to_set() == old(v)@.to_set().insert(x),
        final(v)@.len() == old(v)@.len() + 1,
{
    let mut pos: usize = 0;
    while pos < v.len() && v[pos] < x
        invariant
            pos <= v@.len(),
            forall|i: int| 0 <= i < pos ==> v@[i] < x,
        decreases v@.len() - pos,
    {
        pos = pos + 1;
    }
    proof {
        if pos < v@.len() {
            assert(v@[pos as int] != x);
        }
    }
    let ghost before = v@;
    v.insert(pos, x);
    proof {
        assert(v@ == before.insert(pos as int, x));
        before.insert_ensures(pos as int, x);
        assert forall|i: int, j: int| 0 <= i < j < v@.len() implies v@[i] < v@[j] by {
            if j < pos {
            } else if j == pos {
            } else if i < pos {
                assert(v@[j] == before[j - 1]);
                if pos < before.len() {
                    assert(before[pos as int] > x);
                    assert(before[pos as int] <= before[j - 1]);
                }
            } else if i == pos {
                assert(v@[j] == before[j - 1]);
                assert(before[pos as int] > x);
                assert(before[pos as int] <= before[j - 1]);
            } else {
            }
        }
        assert forall|y: u32| v@.to_set().contains(y) <==> before.to_set().insert(x).contains(y) by {
            if v@.contains(y) {
                let k = choose|k: int| 0 <= k < v@.len() && v@[k] == y;
                if k < pos {
                    assert(before[k] == y);
                } else if k > pos {
                    assert(before[k - 1] == y);
                }
            }
            if before.contains(y) {
                let k = choose|k: int| 0 <= k < before.len() && before[k] == y;
                if k < pos {
                    assert(v@[k] == y);
                } else {
                    assert(v@[k + 1] == y);
                }
            }
            if y == x {
                assert(v@[pos as int] == x);
            }
        }
        assert(v@.to_set() =~= before.to_set().insert(x));
    }
}

/// The distinct ids of `v`, in strictly increasing order.
pub fn sort_unique(v: &Vec<u32>) -> (sorted: Vec<u32>)
    requires
        v@.no_duplicates(),
    ensures
        strictly_increasing(sorted@),
        sorted@.to_set() == v@.to_set(),
        sorted@.len() == v@.len(),
{
    let mut sorted: Vec<u32> = Vec::new();
    let mut i: usize = 0;
    while i < v.len()
        invariant
            i <= v@.len(),
            v@.no_duplicates(),
            strictly_increasing(sorted@),
            sorted@.to_set() == v@.take(i as int).to_set(),
            sorted@.len() == i,
        decreases v@.len() - i,
    {
        let x = v[i];
        proof {
            if sorted@.contains(x) {
                assert(sorted@.to_set().contains(x));
                assert(v@.take(i as int).to_set().contains(x));
                let k = choose|k: int| 0 <= k < i && v@.take(i as int)[k] == x;
                assert(v@[k] == v@[i as int]);
            }
        }
        insert_sorted(&mut sorted, x);
        proof {
            assert(v@.take(i + 1) == v@.take(i as int).push(x));
            assert(v@.take(i as int).push(x).to_set() =~= v@.take(i as int).to_set().insert(x));
        }
        i = i + 1;
    }
    assert(v@.take(v@.len() as int) == v@);
    sorted
}

/// The keys of a map with `u32` keys, in strictly increasing order.
pub fn sorted_keys<V>(m: &HashMap<u32, V>) -> (keys: Vec<u32>)
    ensures
        strictly_increasing(keys@),
        keys@.to_set() == m@.dom(),
        keys@.len() == m@.dom().len(),
{
    let mut collected: Vec<u32> = Vec::new();
    for k in it: m.keys()
        invariant
            collected@.len() == it.index(),
            forall|i: int| 0 <= i < it.index() ==> collected@[i] == *it.seq()[i],
            it.seq().unref().to_set() == m@.dom(),
            it.seq().no_duplicates(),
            it.seq().len() == m@.dom().len(),
        ensures
            collected@ =~= it.seq().unref(),
            collected@.no_duplicates(),
            collected@.len() == m@.dom().len(),
    {
        collected.push(*k);
    }
    assert(collected@.to_set() == m@.dom());
    sort_unique(&collected)
}

/// Whether `v` holds `x`.
pub fn contains_id(v: &Vec<u32>, x: u32) -> (found: bool)
    ensures
        found == v@.contains(x),
{
    let mut i: usize = 0;
    while i < v.len()
        invariant
            i <= v@.len(),
            forall|k: int| 0 <= k < i ==> v@[k] != x,
        decreases v@.len() - i,
    {
        if v[i] == x {
            return true;
        }
        i = i + 1;
    }
    false
}

/// A copy of `v`.
pub fn copy_ids(v: &Vec<u32>) -> (copy: Vec<u32>)
    ensures
        copy@ == v@,
{
    let mut copy: Vec<u32> = Vec::new();
    let mut i: usize = 0;
    while i < v.len()
        invariant
            i <= v@.len(),
            copy@ == v@.take(i as int),
        decreases v@.len() - i,
    {
        copy.push(v[i]);
        proof {
            assert(v@.take(i + 1) =~= v@.take(i as int).push(v@[i as int]));
        }
        i = i + 1;
    }
    assert(v@.take(v@.len() as int) =~= v@);
    copy
}

} // verus!

verus! {

/// A copy of `v`.
pub fn copy_usizes(v: &Vec<usize>) -> (copy: Vec<usize>)
    ensures
        copy@ == v@,
{
    let mut copy: Vec<usize> = Vec::new();
    let mut i: usize = 0;
    while i < v.len()
        invariant
            i <= v@.len(),
            copy@ == v@.take(i as int),
        decreases v@.len() - i,
    {
        copy.push(v[i]);
        proof {
            assert(v@.take(i + 1) =~= v@.take(i as int).push(v@[i as int]));
        }
        i = i + 1;
    }
    assert(v@.take(v@.len() as int) =~= v@);
    copy
}

} // verus!

verus! {

/// The ids of `s` are in non-decreasing order.
pub open spec fn nondecreasing(s: Seq<u32>) -> bool {
    forall|i: int, j: int| 0 <= i < j < s.len() ==> s[i] <= s[j]
}

/// The ids of `v` in non-decreasing order, repetitions kept.
pub fn sort_ids(v: &Vec<u32>) -> (sorted: Vec<u32>)
    ensures
        nondecreasing(sorted@),
        sorted@.to_multiset() == v@.to_multiset(),
        sorted@.len() == v@.len(),
{
    broadcast use vstd::seq_lib::group_to_multiset_ensures;
    let mut sorted: Vec<u32> = Vec::new();
    let mut i: usize = 0;
    while i < v.len()
        invariant
            i <= v@.len(),
            nondecreasing(sorted@),
            sorted@.to_multiset() == v@.take(i as int).to_multiset(),
            sorted@.len() == i,
        decreases v@.len() - i,
    {
        let x = v[i];
        let mut pos: usize = 0;
        while pos < sorted.len() && sorted[pos] <= x
            invariant
                pos <= sorted@.len(),
                forall|k: int| 0 <= k < pos ==> sorted@[k] <= x,
            decreases sorted@.len() - pos,
        {
            pos = pos + 1;
        }
        let ghost before = sorted@;
        sorted.insert(pos, x);
        proof {
            assert(sorted@ == before.insert(pos as int, x));
            assert forall|a: int, b: int| 0 <= a < b < sorted@.len() implies sorted@[a] <= sorted@[b] by {
                if b < pos {
                } else if b == pos {
                } else if a < pos {
                    assert(sorted@[b] == before[b - 1]);
                    if pos < before.len() {
                        assert(before[pos as int] > x);
                        assert(before[pos as int] <= before[b - 1]);
                    }
                } else if a == pos {
                    assert(sorted@[b] == before[b - 1]);
                    assert(before[pos as int] > x);
                    assert(before[pos as int] <= before[b - 1]);
                } else {
                }
            }
            assert(v@.take(i + 1) =~= v@.take(i as int).push(x));
        }
        i = i + 1;
    }
    assert(v@.take(v@.len() as int) =~= v@);
    sorted
}

} // verus!

verus! {

/// Whether `v` holds `x`.
pub fn contains_usize(v: &Vec<usize>, x: usize) -> (found: bool)
    ensures
        found == v@.contains(x),
{
    let mut i: usize = 0;
    while i < v.len()
        invariant
            i <= v@.len(),
            forall|k: int| 0 <= k < i ==> v@[k] != x,
        decreases v@.len() - i,
    {
        if v[i] == x {
            return true;
        }
        i = i + 1;
    }
    false
}


/// Two non-decreasing sequences with the same elements are equal.
pub proof fn lemma_nondecreasing_unique(x: Seq<u32>, y: Seq<u32>)
    requires
        nondecreasing(x),
        nondecreasing(y),
        x.to_multiset() == y.to_multiset(),
    ensures
        x == y,
{
    let leq = |a: u32, b: u32| a <= b;
    assert(vstd::relations::total_ordering(leq)) by {
        assert(vstd::relations::reflexive(leq));
        assert(vstd::relations::antisymmetric(leq));
        assert(vstd::relations::transitive(leq));
        assert(vstd::relations::strongly_connected(leq));
    }
    assert(vstd::relations::sorted_by(x, leq));
    assert(vstd::relations::sorted_by(y, leq));
    vstd::seq_lib::lemma_sorted_unique(x, y, leq);
}

} // verus!
