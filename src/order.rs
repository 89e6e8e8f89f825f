//! Ordering the entries of a directory, largest first.
use crate::analyze::{sorted_by_size, AnalyzedItem};
use vstd::prelude::*;

verus! {

broadcast use {vstd::seq_lib::group_to_multiset_ensures, vstd::multiset::group_multiset_axioms};

/// Entries of `s` never shrink from front to back.
pub open spec fn rising_by_size(s: Seq<AnalyzedItem>) -> bool {
    forall|i: int, j: int| 0 <= i < j < s.len() ==> s[i].spec_size() <= s[j].spec_size()
}

/// No entry of `lo` is larger than an entry of `hi`.
pub open spec fn none_larger(lo: Seq<AnalyzedItem>, hi: Seq<AnalyzedItem>) -> bool {
    forall|i: int, j: int|
        0 <= i < lo.len() && 0 <= j < hi.len() ==> lo[i].spec_size() <= hi[j].spec_size()
}

/// Merges two lists that are each ordered largest first.
fn merge(a: Vec<AnalyzedItem>, b: Vec<AnalyzedItem>) -> (r: Vec<AnalyzedItem>)
    requires
        sorted_by_size(a@),
        sorted_by_size(b@),
    ensures
        r@.to_multiset() == a@.to_multiset().add(b@.to_multiset()),
        sorted_by_size(r@),
{
    let ghost all = a@.to_multiset().add(b@.to_multiset());
    let mut a = a;
    let mut b = b;
    let mut rising: Vec<AnalyzedItem> = Vec::new();
    while a.len() > 0 || b.len() > 0
        invariant
            sorted_by_size(a@),
            sorted_by_size(b@),
            rising_by_size(rising@),
            none_larger(rising@, a@),
            none_larger(rising@, b@),
            rising@.to_multiset().add(a@.to_multiset()).add(b@.to_multiset()) == all,
        decreases a@.len() + b@.len(),
    {
        let take_a = if a.len() == 0 {
            false
        } else if b.len() == 0 {
            true
        } else {
            a[a.len() - 1].size() <= b[b.len() - 1].size()
        };
        let ghost a0 = a@;
        let ghost b0 = b@;
        let ghost r0 = rising@;
        let x = if take_a {
            a.pop().unwrap()
        } else {
            b.pop().unwrap()
        };
        assert(a0 =~= a@.push(x) || b0 =~= b@.push(x));
        assert(forall|j: int| 0 <= j < a@.len() ==> x.spec_size() <= #[trigger] a@[j].spec_size());
        assert(forall|j: int| 0 <= j < b@.len() ==> x.spec_size() <= #[trigger] b@[j].spec_size());
        rising.push(x);
        assert(rising@ =~= r0.push(x));
        if take_a {
            assert(a0.to_multiset() =~= a@.to_multiset().insert(x));
        } else {
            assert(b0.to_multiset() =~= b@.to_multiset().insert(x));
        }
        assert(rising@.to_multiset().add(a@.to_multiset()).add(b@.to_multiset()) =~= all);
    }
    assert(rising@.to_multiset().add(a@.to_multiset()).add(b@.to_multiset()) =~= rising@.to_multiset());
    let mut r: Vec<AnalyzedItem> = Vec::new();
    while rising.len() > 0
        invariant
            rising_by_size(rising@),
            sorted_by_size(r@),
            none_larger(rising@, r@),
            r@.to_multiset().add(rising@.to_multiset()) == all,
        decreases rising@.len(),
    {
        let ghost r0 = r@;
        let ghost s0 = rising@;
        let x = rising.pop().unwrap();
        assert(s0 =~= rising@.push(x));
        r.push(x);
        assert(r@ =~= r0.push(x));
        assert(s0.to_multiset() =~= rising@.to_multiset().insert(x));
        assert(r@.to_multiset().add(rising@.to_multiset()) =~= all);
    }
    assert(r@.to_multiset().add(rising@.to_multiset()) =~= r@.to_multiset());
    r
}

/// Orders the entries largest first; entries of equal size may come in any order.
pub fn sort_by_size(v: Vec<AnalyzedItem>) -> (r: Vec<AnalyzedItem>)
    ensures
        r@.to_multiset() == v@.to_multiset(),
        sorted_by_size(r@),
    decreases v@.len(),
{
    if v.len() <= 1 {
        return v;
    }
    let mut left = v;
    let mid = left.len() / 2;
    let right = left.split_off(mid);
    let ghost whole = left@ + right@;
    assert(whole =~= v@);
    proof {
        vstd::seq_lib::lemma_multiset_commutative(left@, right@);
    }
    let left = sort_by_size(left);
    let right = sort_by_size(right);
    merge(left, right)
}

} // verus!
