//! Dividing a directory into weighted slots for a treemap layout.
use crate::analyze::{sorted_by_size, size_measure, total_size, AnalyzedDir, AnalyzedItem};
use crate::tally::{
    lemma_total_concat, lemma_total_nonnegative, lemma_total_prefix_bound, lemma_total_prefix_step, nonnegative,
};
use vstd::prelude::*;

verus! {

/// A slot of a directory's layout: `item` is the index of the child it
/// shows, or `None` for the slot that stands for all children too small
/// to be shown on their own. `size` is the weight that sets its area.
#[derive(Debug, Clone, Copy, PartialEq, Eq, Structural)]
pub struct PartitionElement {
    pub size: u64,
    pub item: Option<usize>,
}

/// The sum of the weights of `s`.
pub open spec fn total_weight(s: Seq<PartitionElement>) -> int
    decreases s.len(),
{
    if s.len() == 0 {
        0
    } else {
        total_weight(s.drop_last()) + s.last().size
    }
}

/// The index of the first entry of `s` smaller than `min_area`, or the
/// length of `s` when there is none.
pub open spec fn first_below(s: Seq<AnalyzedItem>, min_area: u64) -> int
    decreases s.len(),
{
    if s.len() == 0 {
        0
    } else if s[0].spec_size() < min_area {
        0
    } else {
        1 + first_below(s.drop_first(), min_area)
    }
}

/// `first_below` is the one index before which no entry is below `min_area`
/// and at which, if it is not the end, one is.
pub proof fn lemma_first_below(s: Seq<AnalyzedItem>, min_area: u64, k: int)
    requires
        0 <= k <= s.len(),
        forall|i: int| 0 <= i < k ==> s[i].spec_size() >= min_area,
        k < s.len() ==> s[k].spec_size() < min_area,
    ensures
        first_below(s, min_area) == k,
    decreases s.len(),
{
    if s.len() > 0 && k > 0 {
        assert forall|i: int| 0 <= i < k - 1 implies s.drop_first()[i].spec_size() >= min_area by {
            assert(s.drop_first()[i] == s[i + 1]);
        }
        lemma_first_below(s.drop_first(), min_area, k - 1);
    }
}

proof fn lemma_weight_push(s: Seq<PartitionElement>, e: PartitionElement)
    ensures
        total_weight(s.push(e)) == total_weight(s) + e.size,
{
    assert(s.push(e).drop_last() =~= s);
}

/// Every entry before `first_below` is at least `min_area`, and so is none
/// from it on, when the entries are ordered largest first.
proof fn lemma_first_below_is_cut(s: Seq<AnalyzedItem>, min_area: u64)
    requires
        sorted_by_size(s),
    ensures
        0 <= first_below(s, min_area) <= s.len(),
        forall|j: int| first_below(s, min_area) <= j < s.len() ==> #[trigger] s[j].spec_size() < min_area,
    decreases s.len(),
{
    if s.len() > 0 && s[0].spec_size() >= min_area {
        let t = s.drop_first();
        assert(sorted_by_size(t));
        lemma_first_below_is_cut(t, min_area);
        assert forall|j: int| first_below(s, min_area) <= j < s.len() implies #[trigger] s[j].spec_size() < min_area by {
            assert(s[j] == t[j - 1]);
        }
    }
}

/// Divides `dir` into slots, for a layout in which an entry smaller than
/// `min_area` is not worth a slot of its own. Each child before the first
/// one smaller than `min_area` gets a slot with its own size as weight; if
/// there is such a child, one more slot stands for it and all that follow,
/// with the rest of the directory's size as weight. A directory of size 0
/// has nothing to show and gets no slots.
pub fn partition(min_area: u64, dir: &AnalyzedDir) -> (r: Vec<PartitionElement>)
    requires
        dir.well_formed(),
    ensures
        dir.size == 0 ==> r@.len() == 0,
        dir.size > 0 ==> ({
            let s = dir.children@;
            let k = first_below(s, min_area);
            &&& r@.len() == (if k < s.len() { k + 1 } else { k })
            &&& forall|i: int|
                0 <= i < k ==> r@[i] == (PartitionElement {
                    size: s[i].spec_size(),
                    item: Some(i as usize),
                })
            &&& k < s.len() ==> r@[k] == (PartitionElement {
                size: total_size(s.subrange(k, s.len() as int)) as u64,
                item: None,
            })
        }),
        total_weight(r@) == dir.size,
        dir.size > 0 ==> ((forall|i: int|
            0 <= i < dir.children@.len() ==> #[trigger] dir.children@[i].spec_size() >= min_area)
            <==> (forall|j: int| 0 <= j < r@.len() ==> (#[trigger] r@[j]).item.is_some())),
        forall|j: int|
            first_below(dir.children@, min_area) <= j < dir.children@.len()
                ==> #[trigger] dir.children@[j].spec_size() < min_area,
{
    let ghost s = dir.children@;
    if dir.size == 0 {
        proof {
            lemma_first_below_is_cut(s, min_area);
            assert(sorted_by_size(s));
        }
        return Vec::new();
    }
    let n = dir.children.len();
    let mut k: usize = 0;
    while k < n && dir.children[k].size() >= min_area
        invariant
            n == s.len(),
            s == dir.children@,
            k <= n,
            forall|i: int| 0 <= i < k ==> s[i].spec_size() >= min_area,
        decreases n - k,
    {
        k = k + 1;
    }
    proof {
        lemma_first_below(s, min_area, k as int);
    }
    let mut items: Vec<PartitionElement> = Vec::new();
    let mut accum: u64 = 0;
    let mut i: usize = 0;
    while i < k
        invariant
            n == s.len(),
            s == dir.children@,
            dir.well_formed(),
            k <= n,
            i <= k,
            items@.len() == i,
            forall|j: int|
                0 <= j < i ==> items@[j] == (PartitionElement {
                    size: s[j].spec_size(),
                    item: Some(j as usize),
                }),
            accum == total_size(s.subrange(0, i as int)),
            total_weight(items@) == accum,
        decreases k - i,
    {
        let item_size = dir.children[i].size();
        proof {
            assert(nonnegative(size_measure()));
            lemma_total_prefix_step(s, i as int, size_measure());
            lemma_total_prefix_bound(s, i as int + 1, size_measure());
            lemma_weight_push(items@, PartitionElement { size: item_size, item: Some(i) });
        }
        items.push(PartitionElement { size: item_size, item: Some(i) });
        accum = accum + item_size;
        i = i + 1;
    }
    proof {
        lemma_total_concat(s.subrange(0, k as int), s.subrange(k as int, n as int), size_measure());
        assert(s.subrange(0, k as int) + s.subrange(k as int, n as int) =~= s);
        assert(sorted_by_size(s));
        assert(nonnegative(size_measure()));
        lemma_total_nonnegative(s.subrange(k as int, n as int), size_measure());
    }
    if k < n {
        let rest = PartitionElement { size: dir.size - accum, item: None };
        proof {
            lemma_weight_push(items@, rest);
        }
        items.push(rest);
    } else {
        assert(s.subrange(0, k as int) =~= s);
    }
    items
}

} // verus!
