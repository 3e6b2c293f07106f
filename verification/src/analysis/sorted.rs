//! Sorted sets of block indices, kept in vectors.

use vstd::prelude::*;

verus! {

/// The elements are strictly increasing (so none occurs twice).
pub open spec fn strictly_sorted(s: Seq<usize>) -> bool {
    forall|i: int, j: int| 0 <= i < j < s.len() ==> s[i] < s[j]
}

/// Insert `x` into a strictly sorted vector, unless it is there already.
pub fn insert_sorted(v: &mut Vec<usize>, x: usize)
    requires
        strictly_sorted(old(v)@),
    ensures
        strictly_sorted(final(v)@),
        final(v)@.to_set() == old(v)@.to_set().insert(x),
        final(v)@.len() <= old(v)@.len() + 1,
{
    let mut i: usize = 0;
    while i < v.len() && v[i] < x
        invariant
            i <= v@.len(),
            forall|k: int| 0 <= k < i ==> v@[k] < x,
        decreases v@.len() - i,
    {
        i = i + 1;
    }
    if i < v.len() && v[i] == x {
        proof {
            assert(old(v)@.to_set().insert(x) =~= old(v)@.to_set()) by {
                assert(old(v)@.to_set().contains(x)) by {
                    assert(old(v)@[i as int] == x);
                }
            }
        }
        return;
    }
    let ghost before = v@;
    v.insert(i, x);
    proof {
        assert(i < before.len() ==> before[i as int] > x);
        assert forall|a: int, b: int| 0 <= a < b < v@.len() implies v@[a] < v@[b] by {
            if b < i {
            } else if b == i {
            } else if a < i {
                assert(before[a] < before[b - 1]);
            } else if a == i {
                assert(before[i as int] <= before[b - 1]);
            } else {
                assert(before[a - 1] < before[b - 1]);
            }
        }
        assert(v@.to_set() =~= before.to_set().insert(x)) by {
            assert forall|y: usize| v@.to_set().contains(y) implies before.to_set().insert(x).contains(y) by {
                let k = choose|k: int| 0 <= k < v@.len() && v@[k] == y;
                if k < i {
                    assert(before[k] == y);
                } else if k > i {
                    assert(before[k - 1] == y);
                }
            }
            assert forall|y: usize| before.to_set().insert(x).contains(y) implies v@.to_set().contains(y) by {
                if y == x {
                    assert(v@[i as int] == x);
                } else {
                    let k = choose|k: int| 0 <= k < before.len() && before[k] == y;
                    if k < i {
                        assert(v@[k] == y);
                    } else {
                        assert(v@[k + 1] == y);
                    }
                }
            }
        }
    }
}

/// Whether a strictly sorted vector holds `x`.
pub fn contains_sorted(v: &Vec<usize>, x: usize) -> (r: bool)
    ensures
        r == v@.contains(x),
{
    let mut i: usize = 0;
    while i < v.len()
        invariant
            i <= v@.len(),
            forall|k: int| 0 <= k < i ==> v@[k] != x,
        decreases v@.len() - i,
    {
        if v[i] == x {
            return true;
        }
        i = i + 1;
    }
    false
}

} // verus!
