use vstd::prelude::*;
use crate::collection::CAccountNameAnaVec;
use crate::grouping::{Group, GroupMap};
use crate::analyze::CAccountNameSimAnalyse;
use crate::shard::{is_size_order, lemma_size_order_unique, order_by_size_desc};

verus! {

/// The sizes of the groups.
pub open spec fn group_sizes(gs: Seq<Group>) -> Seq<usize> {
    gs.map_values(|g: Group| g.members@.len() as usize)
}

/// Every member of every group is below `n`.
pub open spec fn members_below(gs: Seq<Group>, n: int) -> bool {
    forall|k: int, j: int|
        0 <= k < gs.len() && 0 <= j < gs[k].members@.len() ==> (#[trigger] gs[k].members@[j]) < n
}

/// The first `m` entries of `ord` are exactly the entries whose size is at
/// least `t`.
pub open spec fn is_kept_prefix(ord: Seq<usize>, sizes: Seq<usize>, t: usize, m: int) -> bool {
    &&& 0 <= m <= ord.len()
    &&& forall|i: int| 0 <= i < m ==> sizes[(#[trigger] ord[i]) as int] >= t
    &&& m < ord.len() ==> sizes[ord[m] as int] < t
}

/// The names of a group's members.
pub open spec fn group_names(g: Group, recs: Seq<CAccountNameSimAnalyse>) -> Seq<Seq<char>> {
    g.members@.map_values(|m: usize| recs[m as int].account_name@)
}

/// The contents of a list of lists of strings.
pub open spec fn strings_view(r: Seq<Vec<String>>) -> Seq<Seq<Seq<char>>> {
    r.map_values(|v: Vec<String>| v@.map_values(|s: String| s@))
}

/// `r` is the shaped result of `gs` at minimum size `t`: the groups with at
/// least `t` members, largest first and equal sizes in map order, each as the
/// names of its members.
pub open spec fn is_shaped(
    r: Seq<Seq<Seq<char>>>,
    gs: Seq<Group>,
    recs: Seq<CAccountNameSimAnalyse>,
    t: usize,
) -> bool {
    exists|ord: Seq<usize>|
        #![trigger is_size_order(ord, group_sizes(gs))]
        is_size_order(ord, group_sizes(gs)) && is_kept_prefix(ord, group_sizes(gs), t, r.len() as int)
            && forall|i: int| 0 <= i < r.len() ==> #[trigger] r[i] == group_names(gs[ord[i] as int], recs)
}

/// Raising the minimum group size never adds a group and leaves every group
/// that survives as it was: the result at the larger minimum is the first part
/// of the result at the smaller one.
pub proof fn lemma_min_members_monotone(
    r1: Seq<Seq<Seq<char>>>,
    r2: Seq<Seq<Seq<char>>>,
    gs: Seq<Group>,
    recs: Seq<CAccountNameSimAnalyse>,
    t1: usize,
    t2: usize,
)
    requires
        is_shaped(r1, gs, recs, t1),
        is_shaped(r2, gs, recs, t2),
        t1 <= t2,
    ensures
        r2.len() <= r1.len(),
        r2 == r1.take(r2.len() as int),
{
    let o1 = choose|ord: Seq<usize>|
        #![trigger is_size_order(ord, group_sizes(gs))]
        is_size_order(ord, group_sizes(gs)) && is_kept_prefix(ord, group_sizes(gs), t1, r1.len() as int)
            && forall|i: int| 0 <= i < r1.len() ==> #[trigger] r1[i] == group_names(gs[ord[i] as int], recs);
    let o2 = choose|ord: Seq<usize>|
        #![trigger is_size_order(ord, group_sizes(gs))]
        is_size_order(ord, group_sizes(gs)) && is_kept_prefix(ord, group_sizes(gs), t2, r2.len() as int)
            && forall|i: int| 0 <= i < r2.len() ==> #[trigger] r2[i] == group_names(gs[ord[i] as int], recs);
    lemma_size_order_unique(o1, o2, group_sizes(gs));
    if r2.len() > r1.len() {
        assert(group_sizes(gs)[o1[r1.len() as int] as int] >= t2);
    }
    assert(r2 =~= r1.take(r2.len() as int));
}

impl<'a> CAccountNameAnaVec<'a> {
    /// Shapes the final result: groups ordered by size, largest first, only those
    /// with at least `threshold_group_members` members, each as its names; a
    /// group's position is its id.
    pub fn generate_group_map_by_index(&self, index_map: &GroupMap, threshold_group_members: usize) -> (r:
        Vec<Vec<String>>)
        requires
            self.wf(),
            members_below(index_map.groups@, self.records().len() as int),
        ensures
            is_shaped(strings_view(r@), index_map.groups@, self.records(), threshold_group_members),
    {
        let ghost gs = index_map.groups@;
        let mut sizes: Vec<usize> = Vec::new();
        let mut k: usize = 0;
        while k < index_map.groups.len()
            invariant
                gs == index_map.groups@,
                k <= gs.len(),
                sizes@ == group_sizes(gs).take(k as int),
            decreases gs.len() - k,
        {
            sizes.push(index_map.groups[k].members.len());
            k += 1;
            assert(sizes@ =~= group_sizes(gs).take(k as int));
        }
        assert(sizes@ =~= group_sizes(gs));
        let ord = order_by_size_desc(&sizes);
        let mut result: Vec<Vec<String>> = Vec::new();
        let mut k: usize = 0;
        while k < ord.len() && index_map.groups[ord[k]].members.len() >= threshold_group_members
            invariant
                self.wf(),
                gs == index_map.groups@,
                members_below(gs, self.records().len() as int),
                is_size_order(ord@, group_sizes(gs)),
                k <= ord@.len(),
                result@.len() == k,
                forall|i: int| 0 <= i < k ==> group_sizes(gs)[(#[trigger] ord@[i]) as int] >= threshold_group_members,
                forall|i: int|
                    0 <= i < k ==> (#[trigger] result@[i])@.len() == gs[ord@[i] as int].members@.len()
                        && forall|j: int|
                        0 <= j < result@[i]@.len() ==> (#[trigger] result@[i]@[j])@ == self.records()[gs[ord@[i] as int].members@[j] as int].account_name@,
            decreases ord@.len() - k,
        {
            let g = &index_map.groups[ord[k]];
            let mut names: Vec<String> = Vec::new();
            let mut j: usize = 0;
            while j < g.members.len()
                invariant
                    self.wf(),
                    members_below(gs, self.records().len() as int),
                    ord@[k as int] < gs.len(),
                    *g == gs[ord@[k as int] as int],
                    j <= g.members@.len(),
                    names@.len() == j,
                    forall|t: int|
                        0 <= t < j ==> (#[trigger] names@[t])@ == self.records()[g.members@[t] as int].account_name@,
                decreases g.members@.len() - j,
            {
                let idx = g.members[j];
                assert(gs[ord@[k as int] as int].members@[j as int] < self.records().len());
                names.push(self.record(idx).account_name.to_owned());
                j += 1;
            }
            result.push(names);
            k += 1;
        }
        assert(is_kept_prefix(ord@, group_sizes(gs), threshold_group_members, result@.len() as int));
        assert forall|i: int| 0 <= i < result@.len() implies #[trigger] strings_view(result@)[i]
            == group_names(gs[ord@[i] as int], self.records()) by {
            assert(strings_view(result@)[i] =~= group_names(gs[ord@[i] as int], self.records()));
        }
        result
    }
}

} // verus!
