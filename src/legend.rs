//! How much space each file extension takes up, for a colour legend.
use vstd::prelude::*;

verus! {

broadcast use vstd::seq_lib::group_to_multiset_ensures;

/// Running totals of size per extension, kept in order of first appearance.
pub struct ExtensionTotals {
    names: Vec<String>,
    totals: Vec<u64>,
}

/// No name occurs twice in `s`.
pub open spec fn distinct_names(s: Seq<(Seq<char>, u64)>) -> bool {
    forall|i: int, j: int| 0 <= i < j < s.len() ==> s[i].0 != s[j].0
}

/// `name` occurs in `s`.
pub open spec fn has_name(s: Seq<(Seq<char>, u64)>, name: Seq<char>) -> bool {
    exists|j: int| 0 <= j < s.len() && s[j].0 == name
}

/// Totals never grow from front to back.
pub open spec fn largest_first(s: Seq<(Seq<char>, u64)>) -> bool {
    forall|i: int, j: int| 0 <= i < j < s.len() ==> s[i].1 >= s[j].1
}

/// `a + b`, or `u64::MAX` where that does not fit.
pub open spec fn capped_sum(a: u64, b: u64) -> u64 {
    if a + b <= u64::MAX {
        (a + b) as u64
    } else {
        u64::MAX
    }
}

/// The names and totals that an ordered list holds.
pub open spec fn pairs_view(v: Seq<(String, u64)>) -> Seq<(Seq<char>, u64)> {
    v.map_values(|p: (String, u64)| (p.0@, p.1))
}

/// Where an entry with total `t` goes in `out`, after every entry whose
/// total is at least `t` and before the others.
fn insert_position(out: &Vec<(String, u64)>, t: u64) -> (pos: usize)
    ensures
        pos <= out@.len(),
        forall|k: int| 0 <= k < pos ==> out@[k].1 >= t,
        pos < out@.len() ==> out@[pos as int].1 < t,
{
    let mut pos: usize = 0;
    while pos < out.len() && out[pos].1 >= t
        invariant
            pos <= out@.len(),
            forall|k: int| 0 <= k < pos ==> out@[k].1 >= t,
        decreases out@.len() - pos,
    {
        pos = pos + 1;
    }
    pos
}

impl View for ExtensionTotals {
    type V = Seq<(Seq<char>, u64)>;

    closed spec fn view(&self) -> Seq<(Seq<char>, u64)> {
        Seq::new(self.names@.len(), |i: int| (self.names@[i]@, self.totals@[i]))
    }
}

impl ExtensionTotals {
    pub closed spec fn well_formed(&self) -> bool {
        &&& self.names@.len() == self.totals@.len()
        &&& distinct_names(self@)
    }

    /// No extension seen yet.
    pub fn new() -> (r: ExtensionTotals)
        ensures
            r.well_formed(),
            r@ == Seq::<(Seq<char>, u64)>::empty(),
    {
        let r = ExtensionTotals { names: Vec::new(), totals: Vec::new() };
        assert(r@ =~= Seq::<(Seq<char>, u64)>::empty());
        r
    }

    /// Adds `size` to the total of `name`; a name not seen before goes last.
    /// A total that would pass `u64::MAX` stays at `u64::MAX`.
    pub fn add(&mut self, name: String, size: u64)
        requires
            old(self).well_formed(),
        ensures
            final(self).well_formed(),
            has_name(old(self)@, name@) ==> exists|j: int|
                0 <= j < old(self)@.len() && old(self)@[j].0 == name@ && final(self)@ == old(self)@.update(j, (name@, capped_sum(old(self)@[j].1, size))),
            !has_name(old(self)@, name@) ==> final(self)@ == old(self)@.push((name@, size)),
    {
        let ghost before = self@;
        let n = self.names.len();
        let mut j: usize = 0;
        while j < n
            invariant
                n == self.names@.len(),
                self.well_formed(),
                self@ == before,
                before == old(self)@,
                j <= n,
                forall|k: int| 0 <= k < j ==> before[k].0 != name@,
            decreases n - j,
        {
            if self.names[j] == name {
                let t = self.totals[j].saturating_add(size);
                self.totals[j] = t;
                assert(before[j as int].0 == name@);
                assert(self@ =~= before.update(j as int, (name@, capped_sum(before[j as int].1, size))));
                return;
            }
            j = j + 1;
        }
        self.names.push(name);
        self.totals.push(size);
        assert(self@ =~= before.push((name@, size)));
    }

    /// The names with their totals, largest total first.
    pub fn into_ordered(self) -> (r: Vec<(String, u64)>)
        requires
            self.well_formed(),
        ensures
            pairs_view(r@).to_multiset() == self@.to_multiset(),
            largest_first(pairs_view(r@)),
    {
        let ghost all = self@;
        let n = self.names.len();
        let mut out: Vec<(String, u64)> = Vec::new();
        let mut i: usize = 0;
        while i < n
            invariant
                n == self.names@.len(),
                n == self.totals@.len(),
                all == self@,
                i <= n,
                largest_first(pairs_view(out@)),
                pairs_view(out@).to_multiset() == all.subrange(0, i as int).to_multiset(),
            decreases n - i,
        {
            let t = self.totals[i];
            let pos = insert_position(&out, t);
            let ghost old_out = out@;
            let entry = (self.names[i].clone(), t);
            out.insert(pos, entry);
            proof {
                assert(pairs_view(out@) =~= pairs_view(old_out).insert(pos as int, (entry.0@, t)));
                assert(all.subrange(0, i as int + 1) =~= all.subrange(0, i as int).push(all[i as int]));
                assert(all[i as int] == (entry.0@, t));
                assert forall|a: int, b: int| 0 <= a < b < out@.len() implies #[trigger] pairs_view(out@)[a].1
                    >= #[trigger] pairs_view(out@)[b].1 by {
                    if b < pos {
                    } else if b == pos {
                    } else if a < pos {
                        assert(pairs_view(old_out)[b - 1].1 <= pairs_view(old_out)[pos as int].1);
                    } else if a == pos {
                        assert(pairs_view(old_out)[b - 1].1 <= pairs_view(old_out)[pos as int].1);
                    } else {
                    }
                }
            }
            i = i + 1;
        }
        assert(all.subrange(0, n as int) =~= all);
        out
    }
}

} // verus!
