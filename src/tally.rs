//! Sums of a per-entry measure over a sequence of entries.
use crate::analyze::AnalyzedItem;
use vstd::prelude::*;

verus! {

broadcast use vstd::seq_lib::group_to_multiset_ensures;

/// The sum of `f` over the entries of `s`.
pub open spec fn total(s: Seq<AnalyzedItem>, f: spec_fn(AnalyzedItem) -> int) -> int
    decreases s.len(),
{
    if s.len() == 0 {
        0
    } else {
        total(s.drop_last(), f) + f(s.last())
    }
}

/// `f` never takes a negative value.
pub open spec fn nonnegative(f: spec_fn(AnalyzedItem) -> int) -> bool {
    forall|x: AnalyzedItem| #[trigger] f(x) >= 0
}

/// Extending a prefix by one entry adds that entry's measure.
pub proof fn lemma_total_prefix_step(s: Seq<AnalyzedItem>, i: int, f: spec_fn(AnalyzedItem) -> int)
    requires
        0 <= i < s.len(),
    ensures
        total(s.subrange(0, i + 1), f) == total(s.subrange(0, i), f) + f(s[i]),
{
    assert(s.subrange(0, i + 1).drop_last() =~= s.subrange(0, i));
}

pub proof fn lemma_total_concat(a: Seq<AnalyzedItem>, b: Seq<AnalyzedItem>, f: spec_fn(AnalyzedItem) -> int)
    ensures
        total(a + b, f) == total(a, f) + total(b, f),
    decreases b.len(),
{
    if b.len() == 0 {
        assert(a + b =~= a);
    } else {
        lemma_total_concat(a, b.drop_last(), f);
        assert((a + b).drop_last() =~= a + b.drop_last());
    }
}

pub proof fn lemma_total_nonnegative(s: Seq<AnalyzedItem>, f: spec_fn(AnalyzedItem) -> int)
    requires
        nonnegative(f),
    ensures
        total(s, f) >= 0,
    decreases s.len(),
{
    if s.len() > 0 {
        lemma_total_nonnegative(s.drop_last(), f);
        assert(f(s.last()) >= 0);
    }
}

/// A prefix never sums to more than the whole.
pub proof fn lemma_total_prefix_bound(s: Seq<AnalyzedItem>, i: int, f: spec_fn(AnalyzedItem) -> int)
    requires
        nonnegative(f),
        0 <= i <= s.len(),
    ensures
        0 <= total(s.subrange(0, i), f) <= total(s, f),
{
    lemma_total_concat(s.subrange(0, i), s.subrange(i, s.len() as int), f);
    assert(s.subrange(0, i) + s.subrange(i, s.len() as int) =~= s);
    lemma_total_nonnegative(s.subrange(i, s.len() as int), f);
    lemma_total_nonnegative(s.subrange(0, i), f);
}

pub proof fn lemma_total_remove(s: Seq<AnalyzedItem>, j: int, f: spec_fn(AnalyzedItem) -> int)
    requires
        0 <= j < s.len(),
    ensures
        total(s, f) == total(s.remove(j), f) + f(s[j]),
    decreases s.len(),
{
    if j < s.len() - 1 {
        lemma_total_remove(s.drop_last(), j, f);
        assert(s.remove(j).drop_last() =~= s.drop_last().remove(j));
        assert(s.remove(j).last() == s.last());
    } else {
        assert(s.remove(j) =~= s.drop_last());
    }
}

/// Reordering the entries leaves the sum unchanged.
pub proof fn lemma_total_permutation(s1: Seq<AnalyzedItem>, s2: Seq<AnalyzedItem>, f: spec_fn(AnalyzedItem) -> int)
    requires
        s1.to_multiset() == s2.to_multiset(),
    ensures
        total(s1, f) == total(s2, f),
    decreases s1.len(),
{
    if s1.len() == 0 {
        assert(s2.to_multiset().len() == 0);
        assert(s2 =~= Seq::<AnalyzedItem>::empty());
    } else {
        let x = s1.last();
        assert(s1.drop_last().push(x) =~= s1);
        assert(s1.to_multiset().count(x) > 0);
        assert(s2.contains(x));
        let j = choose|j: int| 0 <= j < s2.len() && s2[j] == x;
        lemma_total_remove(s2, j, f);
        assert(s1.drop_last().to_multiset() =~= s2.remove(j).to_multiset());
        lemma_total_permutation(s1.drop_last(), s2.remove(j), f);
    }
}

} // verus!
