//! Personalized PageRank's reached-set bookkeeping.
use vstd::prelude::*;

verus! {

/// `s` is sorted ascending.
pub open spec fn ascending(s: Seq<usize>) -> bool {
    forall|i: int, j: int| 0 <= i <= j < s.len() ==> s[i] <= s[j]
}

/// Overwrites `merged` with the union of the ascending `a` and `b`, ascending.
pub fn merge_ascending(a: &[usize], b: &[usize], merged: &mut Vec<usize>)
    requires
        ascending(a@),
        ascending(b@),
    ensures
        ascending(final(merged)@),
        final(merged)@.to_multiset() == a@.to_multiset().add(b@.to_multiset()),
        final(merged)@.len() == a@.len() + b@.len(),
{
    merged.clear();
    let mut i: usize = 0;
    let mut j: usize = 0;
    proof {
        broadcast use vstd::seq_lib::group_to_multiset_ensures;
    }
    while i < a.len() || j < b.len()
        invariant
            i <= a@.len(),
            j <= b@.len(),
            ascending(a@),
            ascending(b@),
            ascending(merged@),
            merged@.len() == i + j,
            merged@.to_multiset() == a@.take(i as int).to_multiset().add(b@.take(j as int).to_multiset()),
            merged@.len() > 0 && i < a@.len() ==> merged@.last() <= a@[i as int],
            merged@.len() > 0 && j < b@.len() ==> merged@.last() <= b@[j as int],
        decreases a@.len() + b@.len() - i - j,
    {
        proof {
            broadcast use vstd::seq_lib::group_to_multiset_ensures;
        }
        let take_a = j >= b.len() || (i < a.len() && a[i] <= b[j]);
        if take_a {
            let x = a[i];
            let ghost before = merged@;
            merged.push(x);
            assert(a@.take(i + 1) =~= a@.take(i as int).push(x));
            assert(merged@ =~= before.push(x));
            i = i + 1;
        } else {
            let y = b[j];
            let ghost before = merged@;
            merged.push(y);
            assert(b@.take(j + 1) =~= b@.take(j as int).push(y));
            assert(merged@ =~= before.push(y));
            j = j + 1;
        }
    }
    assert(a@.take(i as int) =~= a@);
    assert(b@.take(j as int) =~= b@);
}

} // verus!
