//! Sorting pairs by their first component, and a fact about duplicates.

use vstd::prelude::*;

verus! {

broadcast use vstd::seq_lib::group_to_multiset_ensures, vstd::multiset::group_multiset_axioms;

/// The first components of `s` never decrease.
pub open spec fn sorted_by_first(s: Seq<(u64, usize)>) -> bool {
    forall|i: int, j: int| 0 <= i < j < s.len() ==> s[i].0 <= s[j].0
}

/// A sequence in which no value occurs twice as often as once has no
/// duplicates.
pub proof fn lemma_no_duplicates_from_counts<A>(s: Seq<A>)
    requires
        forall|x: A| s.to_multiset().count(x) <= 1,
    ensures
        s.no_duplicates(),
    decreases s.len(),
{
    if s.len() > 0 {
        let t = s.drop_last();
        let a = s.last();
        assert(t.push(a) =~= s);
        assert forall|x: A| t.to_multiset().count(x) <= 1 by {
            assert(s.to_multiset().count(x) <= 1);
        }
        lemma_no_duplicates_from_counts(t);
        assert(s.to_multiset().count(a) == t.to_multiset().count(a) + 1);
        assert(!t.contains(a));
        assert forall|i: int, j: int| 0 <= i < s.len() && 0 <= j < s.len() && i != j implies s[i]
            != s[j] by {
            if j == s.len() - 1 {
                assert(t[i] == s[i]);
            } else if i == s.len() - 1 {
                assert(t[j] == s[j]);
            } else {
                assert(t[i] == s[i] && t[j] == s[j]);
            }
        }
    }
}

fn merge(a: Vec<(u64, usize)>, b: Vec<(u64, usize)>) -> (r: Vec<(u64, usize)>)
    requires
        sorted_by_first(a@),
        sorted_by_first(b@),
    ensures
        sorted_by_first(r@),
        r@.to_multiset() == a@.to_multiset().add(b@.to_multiset()),
{
    let mut r: Vec<(u64, usize)> = Vec::new();
    let mut i: usize = 0;
    let mut j: usize = 0;
    proof {
        assert(a@.subrange(0, 0) =~= Seq::<(u64, usize)>::empty());
        assert(b@.subrange(0, 0) =~= Seq::<(u64, usize)>::empty());
        assert(r@.to_multiset() =~= a@.subrange(0, 0).to_multiset().add(
            b@.subrange(0, 0).to_multiset(),
        ));
    }
    while i < a.len() || j < b.len()
        invariant
            i <= a.len(),
            j <= b.len(),
            sorted_by_first(a@),
            sorted_by_first(b@),
            sorted_by_first(r@),
            r@.to_multiset() == a@.subrange(0, i as int).to_multiset().add(
                b@.subrange(0, j as int).to_multiset(),
            ),
            r@.len() > 0 && i < a.len() ==> r@.last().0 <= a@[i as int].0,
            r@.len() > 0 && j < b.len() ==> r@.last().0 <= b@[j as int].0,
        decreases a.len() + b.len() - i - j,
    {
        let take_a = j >= b.len() || (i < a.len() && a[i].0 <= b[j].0);
        let ghost before = r@;
        if take_a {
            let x = a[i];
            proof {
                assert(a@.subrange(0, i + 1) =~= a@.subrange(0, i as int).push(x));
            }
            r.push(x);
            i = i + 1;
        } else {
            let x = b[j];
            proof {
                assert(b@.subrange(0, j + 1) =~= b@.subrange(0, j as int).push(x));
            }
            r.push(x);
            j = j + 1;
        }
        proof {
            assert(r@ == before.push(r@.last()));
            assert forall|p: int, q: int| 0 <= p < q < r@.len() implies r@[p].0 <= r@[q].0 by {
                if q == r@.len() - 1 && p < q {
                    assert(before[p].0 <= before.last().0 || before.len() == 0);
                }
            }
            assert(r@.to_multiset() =~= a@.subrange(0, i as int).to_multiset().add(
                b@.subrange(0, j as int).to_multiset(),
            ));
        }
    }
    proof {
        assert(a@.subrange(0, i as int) =~= a@);
        assert(b@.subrange(0, j as int) =~= b@);
    }
    r
}

/// Sort pairs by their first component.
pub fn sort_by_first(v: Vec<(u64, usize)>) -> (r: Vec<(u64, usize)>)
    ensures
        sorted_by_first(r@),
        r@.to_multiset() == v@.to_multiset(),
    decreases v.len(),
{
    if v.len() <= 1 {
        return v;
    }
    let ghost whole = v@;
    let mut left = v;
    let mid = left.len() / 2;
    let right = left.split_off(mid);
    proof {
        assert(whole =~= left@ + right@);
        vstd::seq_lib::lemma_multiset_commutative(left@, right@);
    }
    let sorted_left = sort_by_first(left);
    let sorted_right = sort_by_first(right);
    merge(sorted_left, sorted_right)
}

} // verus!
