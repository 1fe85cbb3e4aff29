//! Provenance tags: sets of input-pattern indices, kept ascending and without
//! repeats.

use vstd::prelude::*;

verus! {

/// Strictly ascending, hence free of repeats.
pub open spec fn ascending(p: Seq<u32>) -> bool {
    forall|i: int, j: int| 0 <= i < j < p.len() ==> p[i] < p[j]
}

/// The normal form of a set of indices: the ascending sequence of its members.
pub open spec fn normal_of(p: Seq<u32>, members: Set<u32>) -> bool {
    ascending(p) && p.to_set() == members
}

fn insert_sorted(p: &mut Vec<u32>, x: u32)
    requires
        ascending(old(p)@),
    ensures
        ascending(final(p)@),
        final(p)@.to_set() == old(p)@.to_set().insert(x),
{
    let mut k: usize = 0;
    while k < p.len() && p[k] < x
        invariant
            k <= p.len(),
            forall|j: int| 0 <= j < k ==> p@[j] < x,
        decreases p.len() - k,
    {
        k = k + 1;
    }
    if k < p.len() && p[k] == x {
        proof {
            assert(p@.to_set().insert(x) =~= p@.to_set()) by {
                assert(p@.to_set().contains(p@[k as int]));
            }
        }
        return;
    }
    let ghost before = p@;
    p.insert(k, x);
    proof {
        assert(p@ == before.take(k as int) + seq![x] + before.skip(k as int));
        assert forall|i: int, j: int| 0 <= i < j < p@.len() implies p@[i] < p@[j] by {
            if j < k {
            } else if j == k {
            } else if i < k {
                assert(before[j - 1] > x || before[j - 1] >= before[k as int]);
            } else if i == k {
                assert(before[k as int] > x);
                assert(j - 1 == k || before[k as int] < before[j - 1]);
            } else {
            }
        }
        assert forall|y: u32| p@.to_set().contains(y) <==> before.to_set().insert(x).contains(y) by {
            if p@.to_set().contains(y) {
                let i = choose|i: int| 0 <= i < p@.len() && p@[i] == y;
                if i < k {
                    assert(before[i] == y);
                } else if i > k {
                    assert(before[i - 1] == y);
                }
            }
            if before.to_set().contains(y) {
                let i = choose|i: int| 0 <= i < before.len() && before[i] == y;
                if i < k {
                    assert(p@[i] == y);
                } else {
                    assert(p@[i + 1] == y);
                }
            }
            if y == x {
                assert(p@[k as int] == x);
            }
        }
        assert(p@.to_set() =~= before.to_set().insert(x));
    }
}

/// The tag that covers both inputs: the ascending union of their indices.
pub fn merge_provenance(p1: &Vec<u32>, p2: &Vec<u32>) -> (r: Vec<u32>)
    ensures
        normal_of(r@, p1@.to_set().union(p2@.to_set())),
{
    let mut r: Vec<u32> = Vec::new();
    let mut i: usize = 0;
    proof {
        assert(r@.to_set() =~= p1@.take(0).to_set());
    }
    while i < p1.len()
        invariant
            i <= p1.len(),
            ascending(r@),
            r@.to_set() == p1@.take(i as int).to_set(),
        decreases p1.len() - i,
    {
        insert_sorted(&mut r, p1[i]);
        proof {
            assert(p1@.take(i + 1) == p1@.take(i as int).push(p1@[i as int]));
            p1@.take(i as int).lemma_push_to_set_commute(p1@[i as int]);
        }
        i = i + 1;
    }
    let mut j: usize = 0;
    proof {
        assert(p1@.take(p1.len() as int) == p1@);
        assert(p2@.take(0).to_set() =~= Set::<u32>::empty());
        assert(r@.to_set() =~= p1@.to_set().union(p2@.take(0).to_set()));
    }
    while j < p2.len()
        invariant
            j <= p2.len(),
            ascending(r@),
            r@.to_set() == p1@.to_set().union(p2@.take(j as int).to_set()),
        decreases p2.len() - j,
    {
        insert_sorted(&mut r, p2[j]);
        proof {
            assert(p2@.take(j + 1) == p2@.take(j as int).push(p2@[j as int]));
            p2@.take(j as int).lemma_push_to_set_commute(p2@[j as int]);
            assert(r@.to_set() =~= p1@.to_set().union(p2@.take(j + 1).to_set()));
        }
        j = j + 1;
    }
    proof {
        assert(p2@.take(p2.len() as int) == p2@);
    }
    r
}

/// Two tags are equal, element by element.
pub fn same_provenance(p1: &Vec<u32>, p2: &Vec<u32>) -> (r: bool)
    ensures
        r == (p1@ == p2@),
{
    if p1.len() != p2.len() {
        return false;
    }
    let mut i: usize = 0;
    while i < p1.len()
        invariant
            i <= p1.len(),
            p1.len() == p2.len(),
            forall|j: int| 0 <= j < i ==> p1@[j] == p2@[j],
        decreases p1.len() - i,
    {
        if p1[i] != p2[i] {
            return false;
        }
        i = i + 1;
    }
    proof {
        assert(p1@ =~= p2@);
    }
    true
}

} // verus!
