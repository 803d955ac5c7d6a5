use vstd::prelude::*;
use vstd::multiset::Multiset;
use crate::shard::{copy_range, pair_le, sort_pairs};

verus! {

broadcast use vstd::seq_lib::group_to_multiset_ensures;

/// One group: its leader and its members in order of admission, leader first.
pub struct Group {
    pub leader: usize,
    pub members: Vec<usize>,
}

/// A group map: groups keyed by their leaders.
pub struct GroupMap {
    pub groups: Vec<Group>,
}

/// The leaders of a list of groups.
pub open spec fn leaders_of(gs: Seq<Group>) -> Seq<usize> {
    gs.map_values(|g: Group| g.leader)
}

/// The member lists of a list of groups.
pub open spec fn members_of(gs: Seq<Group>) -> Seq<Seq<usize>> {
    gs.map_values(|g: Group| g.members@)
}

/// All members of all groups, counted with multiplicity.
pub open spec fn all_members(gs: Seq<Group>) -> Multiset<usize>
    decreases gs.len(),
{
    if gs.len() == 0 {
        Multiset::empty()
    } else {
        all_members(gs.drop_last()).add(gs.last().members@.to_multiset())
    }
}

/// A member of a group is counted among all members.
pub proof fn lemma_member_counted(gs: Seq<Group>, t: int, j: int)
    requires
        0 <= t < gs.len(),
        0 <= j < gs[t].members@.len(),
    ensures
        all_members(gs).count(gs[t].members@[j]) > 0,
    decreases gs.len(),
{
    broadcast use vstd::multiset::group_multiset_axioms;

    gs.last().members@.to_multiset_ensures();
    if t == gs.len() - 1 {
        assert(gs.last().members@.contains(gs[t].members@[j]));
    } else {
        assert(gs.drop_last()[t] == gs[t]);
        lemma_member_counted(gs.drop_last(), t, j);
    }
}

proof fn lemma_all_members_push(gs: Seq<Group>, g: Group)
    ensures
        all_members(gs.push(g)) == all_members(gs).add(g.members@.to_multiset()),
{
    assert(gs.push(g).drop_last() =~= gs);
}

proof fn lemma_all_members_update(gs: Seq<Group>, k: int, g: Group)
    requires
        0 <= k < gs.len(),
    ensures
        all_members(gs.update(k, g)).add(gs[k].members@.to_multiset()) == all_members(gs).add(
            g.members@.to_multiset(),
        ),
    decreases gs.len(),
{
    broadcast use vstd::multiset::group_multiset_axioms;

    let u = gs.update(k, g);
    assert(all_members(u) == all_members(u.drop_last()).add(u.last().members@.to_multiset()));
    assert(all_members(gs) == all_members(gs.drop_last()).add(gs.last().members@.to_multiset()));
    if k == gs.len() - 1 {
        assert(u.drop_last() =~= gs.drop_last());
        assert(all_members(u).add(gs[k].members@.to_multiset()) =~= all_members(gs).add(
            g.members@.to_multiset(),
        ));
    } else {
        assert(u.drop_last() =~= gs.drop_last().update(k, g));
        assert(u.last() == gs.last());
        assert(gs.drop_last()[k] == gs[k]);
        assert(all_members(u) == all_members(u.drop_last()).add(u.last().members@.to_multiset()));
        assert(all_members(gs) == all_members(gs.drop_last()).add(gs.last().members@.to_multiset()));
        lemma_all_members_update(gs.drop_last(), k, g);
        let a1 = all_members(u.drop_last());
        let a0 = all_members(gs.drop_last());
        let lm = gs.last().members@.to_multiset();
        let gk = gs[k].members@.to_multiset();
        let gm = g.members@.to_multiset();
        assert forall|x: usize| #[trigger] a1.add(lm).add(gk).count(x) == a0.add(lm).add(gm).count(x) by {
            assert(a1.add(gk).count(x) == a0.add(gm).count(x));
        }
        assert(a1.add(lm).add(gk) =~= a0.add(lm).add(gm));
    }
}

/// Distinct leaders; each member list is non-empty and starts with its leader.
pub open spec fn groups_wf(gs: Seq<Group>) -> bool {
    &&& leaders_of(gs).no_duplicates()
    &&& forall|k: int|
        0 <= k < gs.len() ==> (#[trigger] gs[k]).members@.len() > 0 && gs[k].members@[0]
            == gs[k].leader
}

impl GroupMap {
    pub open spec fn wf(&self) -> bool {
        groups_wf(self.groups@)
    }

    /// An empty group map.
    pub fn new() -> (r: GroupMap)
        ensures
            r.wf(),
            r.groups@.len() == 0,
    {
        GroupMap { groups: Vec::new() }
    }

    /// The leaders, in the order their groups were made.
    pub fn leaders(&self) -> (r: Vec<usize>)
        ensures
            r@ == leaders_of(self.groups@),
    {
        let mut r: Vec<usize> = Vec::new();
        let mut k: usize = 0;
        while k < self.groups.len()
            invariant
                k <= self.groups@.len(),
                r@ == leaders_of(self.groups@).take(k as int),
            decreases self.groups@.len() - k,
        {
            r.push(self.groups[k].leader);
            k += 1;
            assert(r@ =~= leaders_of(self.groups@).take(k as int));
        }
        assert(r@ =~= leaders_of(self.groups@));
        r
    }
}

/// The distance between two indices.
pub open spec fn dist(a: usize, b: usize) -> usize {
    if a < b {
        (b - a) as usize
    } else {
        (a - b) as usize
    }
}

/// `order` lists each of `leaders` once, nearest to `c` first, equal distances
/// by smaller index.
pub open spec fn is_probe_order(order: Seq<usize>, leaders: Seq<usize>, c: usize) -> bool {
    &&& order.len() == leaders.len()
    &&& order.no_duplicates()
    &&& forall|i: int| 0 <= i < order.len() ==> leaders.contains(#[trigger] order[i])
    &&& forall|i: int| 0 <= i < leaders.len() ==> order.contains(#[trigger] leaders[i])
    &&& forall|i: int, j: int|
        0 <= i < j < order.len() ==> pair_le(
            (dist(#[trigger] order[i], c), order[i]),
            (dist(#[trigger] order[j], c), order[j]),
        )
}

/// The leaders, nearest to `c` first, equal distances by smaller index.
pub fn probe_order(leaders: &Vec<usize>, c: usize) -> (r: Vec<usize>)
    requires
        leaders@.no_duplicates(),
    ensures
        is_probe_order(r@, leaders@, c),
{
    let mut pairs: Vec<(usize, usize)> = Vec::new();
    let mut k: usize = 0;
    while k < leaders.len()
        invariant
            k <= leaders@.len(),
            pairs@.len() == k,
            forall|i: int| 0 <= i < k ==> #[trigger] pairs@[i] == (dist(leaders@[i], c), leaders@[i]),
        decreases leaders@.len() - k,
    {
        let l = leaders[k];
        let d = if l < c {
            c - l
        } else {
            l - c
        };
        pairs.push((d, l));
        k += 1;
    }
    let ghost before = pairs@;
    proof {
        assert forall|i: int, j: int|
            0 <= i < before.len() && 0 <= j < before.len() && i != j implies before[i]
            != before[j] by {}
        before.lemma_multiset_has_no_duplicates();
    }
    sort_pairs(&mut pairs);
    let ghost after = pairs@;
    proof {
        assert(after.len() == before.len()) by {
            assert(after.to_multiset().len() == before.to_multiset().len());
        }
        after.lemma_multiset_has_no_duplicates_conv();
        assert forall|i: int| 0 <= i < after.len() implies exists|p: int|
            0 <= p < before.len() && #[trigger] before[p] == #[trigger] after[i] by {
            assert(after.to_multiset().count(after[i]) > 0);
            assert(before.contains(after[i]));
        }
    }
    let mut r: Vec<usize> = Vec::new();
    let mut k: usize = 0;
    while k < pairs.len()
        invariant
            pairs@ == after,
            k <= pairs.len(),
            r@.len() == k,
            forall|i: int| 0 <= i < k ==> #[trigger] r@[i] == after[i].1,
        decreases pairs.len() - k,
    {
        r.push(pairs[k].1);
        k += 1;
    }
    proof {
        assert forall|i: int| 0 <= i < r@.len() implies after[i] == (dist(r@[i], c), r@[i])
            && leaders@.contains(#[trigger] r@[i]) by {
            let p = choose|p: int| 0 <= p < before.len() && #[trigger] before[p] == after[i];
        }
        assert forall|p: int| 0 <= p < leaders@.len() implies r@.contains(#[trigger] leaders@[p]) by {
            assert(before.to_multiset().count(before[p]) > 0);
            assert(after.contains(before[p]));
            let i = choose|i: int| 0 <= i < after.len() && after[i] == before[p];
            assert(r@[i] == leaders@[p]);
        }
        assert forall|i: int, j: int|
            0 <= i < r@.len() && 0 <= j < r@.len() && i != j implies r@[i] != r@[j] by {
            assert(after[i] == (dist(r@[i], c), r@[i]));
            assert(after[j] == (dist(r@[j], c), r@[j]));
        }
        assert forall|i: int, j: int| 0 <= i < j < r@.len() implies pair_le(
            (dist(#[trigger] r@[i], c), r@[i]),
            (dist(#[trigger] r@[j], c), r@[j]),
        ) by {
            assert(after[i] == (dist(r@[i], c), r@[i]));
            assert(after[j] == (dist(r@[j], c), r@[j]));
        }
    }
    r
}

/// The first entry `l` of `order` that `similar` accepts for `c`.
pub open spec fn is_first_match<F: Fn(usize, usize) -> bool>(
    r: Option<usize>,
    order: Seq<usize>,
    c: usize,
    similar: F,
) -> bool {
    match r {
        Some(l) => exists|k: int|
            #![trigger order[k]]
            0 <= k < order.len() && order[k] == l && similar.ensures((l, c), true) && forall|j: int|
                0 <= j < k ==> similar.ensures((#[trigger] order[j], c), false),
        None => forall|j: int| 0 <= j < order.len() ==> similar.ensures((#[trigger] order[j], c), false),
    }
}

/// Tries the entries of `order` in turn and returns the first that `similar`
/// accepts for `c`.
pub fn first_similar<F: Fn(usize, usize) -> bool>(order: &Vec<usize>, c: usize, similar: &F) -> (r:
    Option<usize>)
    requires
        forall|a: usize, b: usize| similar.requires((a, b)),
    ensures
        is_first_match(r, order@, c, *similar),
{
    let mut k: usize = 0;
    while k < order.len()
        invariant
            k <= order@.len(),
            forall|a: usize, b: usize| similar.requires((a, b)),
            forall|j: int| 0 <= j < k ==> similar.ensures((#[trigger] order@[j], c), false),
        decreases order@.len() - k,
    {
        let l = order[k];
        if similar(l, c) {
            assert(order@[k as int] == l);
            return Some(l);
        }
        k += 1;
    }
    None
}

/// The order in which a candidate `c` meets the leaders: the nearest `limit`
/// of them, nearest first.
pub open spec fn is_capped_probe_order(order: Seq<usize>, leaders: Seq<usize>, c: usize, limit: usize) -> bool {
    exists|full: Seq<usize>|
        #[trigger] is_probe_order(full, leaders, c) && order == full.take(
            if limit < full.len() {
                limit as int
            } else {
                full.len() as int
            },
        )
}

/// `new` is `old` after candidate `c` was placed by decision `d`: appended to the
/// group led by `l` for `Some(l)`, or made the leader of a new group for `None`.
pub open spec fn admitted(old: Seq<Group>, new: Seq<Group>, c: usize, d: Option<usize>) -> bool {
    match d {
        Some(l) => exists|k: int|
            #![trigger old[k]]
            0 <= k < old.len() && old[k].leader == l && new.len() == old.len() && new[k].leader == l
                && new[k].members@ == old[k].members@.push(c) && forall|j: int|
                0 <= j < old.len() && j != k ==> #[trigger] new[j] == old[j],
        None => new.len() == old.len() + 1 && new.last().leader == c && new.last().members@ == seq![c]
            && forall|j: int| 0 <= j < old.len() ==> #[trigger] new[j] == old[j],
    }
}

/// Finds the group of candidate `c`: the first of the nearest `limit` leaders
/// that `similar` accepts, or `None`.
pub fn determine_which_group_the_account_belongs_to<F: Fn(usize, usize) -> bool>(
    index_to_match: usize,
    group_map: &GroupMap,
    limit: usize,
    similar: &F,
) -> (r: Option<usize>)
    requires
        group_map.wf(),
        forall|a: usize, b: usize| similar.requires((a, b)),
    ensures
        exists|order: Seq<usize>|
            #![trigger is_capped_probe_order(order, leaders_of(group_map.groups@), index_to_match, limit)]
            is_capped_probe_order(order, leaders_of(group_map.groups@), index_to_match, limit)
                && is_first_match(r, order, index_to_match, *similar),
{
    let leaders = group_map.leaders();
    let full = probe_order(&leaders, index_to_match);
    let n = if limit < full.len() {
        limit
    } else {
        full.len()
    };
    let mut order: Vec<usize> = Vec::new();
    let mut k: usize = 0;
    while k < n
        invariant
            k <= n,
            n <= full@.len(),
            order@ == full@.take(k as int),
        decreases n - k,
    {
        order.push(full[k]);
        k += 1;
        assert(order@ =~= full@.take(k as int));
    }
    assert(is_probe_order(full@, leaders_of(group_map.groups@), index_to_match));
    assert(order@ == full@.take(n as int));
    assert(is_capped_probe_order(order@, leaders_of(group_map.groups@), index_to_match, limit));
    first_similar(&order, index_to_match, similar)
}

/// Places candidate `c`: appends it to the group of the first of the nearest
/// `limit` leaders that `similar` accepts, or makes it the leader of a new group.
pub fn integrate_account_into_groups<F: Fn(usize, usize) -> bool>(
    index_to_match: usize,
    group_map: &mut GroupMap,
    limit: usize,
    similar: &F,
) -> (r: Option<usize>)
    requires
        old(group_map).wf(),
        !leaders_of(old(group_map).groups@).contains(index_to_match),
        forall|a: usize, b: usize| similar.requires((a, b)),
    ensures
        final(group_map).wf(),
        admitted(old(group_map).groups@, final(group_map).groups@, index_to_match, r),
        all_members(final(group_map).groups@) == all_members(old(group_map).groups@).insert(
            index_to_match,
        ),
        exists|order: Seq<usize>|
            #![trigger is_capped_probe_order(order, leaders_of(old(group_map).groups@), index_to_match, limit)]
            is_capped_probe_order(order, leaders_of(old(group_map).groups@), index_to_match, limit)
                && is_first_match(r, order, index_to_match, *similar),
{
    broadcast use vstd::multiset::group_multiset_axioms;

    let ghost old_gs = group_map.groups@;
    let d = determine_which_group_the_account_belongs_to(index_to_match, group_map, limit, similar);
    match d {
        Some(l) => {
            let ghost order = choose|order: Seq<usize>|
                #![trigger is_capped_probe_order(order, leaders_of(old_gs), index_to_match, limit)]
                is_capped_probe_order(order, leaders_of(old_gs), index_to_match, limit)
                    && is_first_match(d, order, index_to_match, *similar);
            proof {
                let full = choose|full: Seq<usize>|
                    #[trigger] is_probe_order(full, leaders_of(old_gs), index_to_match) && order
                        == full.take(
                        if limit < full.len() {
                            limit as int
                        } else {
                            full.len() as int
                        },
                    );
                let i = choose|i: int|
                    #![trigger order[i]]
                    0 <= i < order.len() && order[i] == l && similar.ensures((l, index_to_match), true)
                        && forall|j: int|
                        0 <= j < i ==> similar.ensures((#[trigger] order[j], index_to_match), false);
                assert(full[i] == l);
                assert(leaders_of(old_gs).contains(l));
            }
            let mut k: usize = 0;
            while k < group_map.groups.len() && group_map.groups[k].leader != l
                invariant
                    group_map.groups@ == old_gs,
                    k <= old_gs.len(),
                    leaders_of(old_gs).contains(l),
                    forall|j: int| 0 <= j < k ==> (#[trigger] old_gs[j]).leader != l,
                decreases old_gs.len() - k,
            {
                k += 1;
            }
            proof {
                if k == old_gs.len() {
                    let j = choose|j: int| 0 <= j < old_gs.len() && leaders_of(old_gs)[j] == l;
                    assert(old_gs[j].leader == l);
                }
            }
            let ghost g_old = old_gs[k as int];
            group_map.groups[k].members.push(index_to_match);
            proof {
                let new_gs = group_map.groups@;
                assert(new_gs == old_gs.update(k as int, new_gs[k as int]));
                lemma_all_members_update(old_gs, k as int, new_gs[k as int]);
                let a = all_members(new_gs);
                let b = all_members(old_gs);
                let m = g_old.members@.to_multiset();
                assert(g_old.members@.push(index_to_match).to_multiset() == m.insert(index_to_match));
                assert(new_gs[k as int].members@ == g_old.members@.push(index_to_match));
                assert(a.add(m) == b.add(m.insert(index_to_match)));
                assert forall|x: usize| a.count(x) == b.insert(index_to_match).count(x) by {
                    assert(a.add(m).count(x) == b.add(m.insert(index_to_match)).count(x));
                }
                assert(a =~= b.insert(index_to_match));
                assert(old_gs[k as int].leader == l);
                assert(new_gs[k as int].leader == l);
                assert(forall|j: int| 0 <= j < old_gs.len() && j != k ==> #[trigger] new_gs[j] == old_gs[j]);
                assert(admitted(old_gs, new_gs, index_to_match, d));
                assert(leaders_of(new_gs) =~= leaders_of(old_gs));
                assert(new_gs[k as int].members@[0] == g_old.members@[0]);
            }
        },
        None => {
            let mut members: Vec<usize> = Vec::new();
            members.push(index_to_match);
            group_map.groups.push(Group { leader: index_to_match, members });
            proof {
                let new_gs = group_map.groups@;
                lemma_all_members_push(old_gs, new_gs.last());
                assert(new_gs =~= old_gs.push(new_gs.last()));
                assert(new_gs.last().members@ =~= seq![index_to_match]);
                assert(seq![index_to_match].to_multiset() =~= Multiset::empty().insert(index_to_match))
                    by {
                    assert(seq![index_to_match] =~= Seq::<usize>::empty().push(index_to_match));
                }
                assert(all_members(new_gs) =~= all_members(old_gs).insert(index_to_match));
                assert(leaders_of(new_gs) =~= leaders_of(old_gs).push(index_to_match));
                assert forall|i: int, j: int|
                    0 <= i < leaders_of(new_gs).len() && 0 <= j < leaders_of(new_gs).len() && i != j
                    implies leaders_of(new_gs)[i] != leaders_of(new_gs)[j] by {
                    if i == old_gs.len() {
                        assert(leaders_of(old_gs)[j] == leaders_of(new_gs)[j]);
                    }
                    if j == old_gs.len() {
                        assert(leaders_of(old_gs)[i] == leaders_of(new_gs)[i]);
                    }
                }
            }
        },
    }
    d
}

/// Each member after the first was accepted by `similar` against its leader.
pub open spec fn members_accepted<F: Fn(usize, usize) -> bool>(gs: Seq<Group>, similar: F) -> bool {
    forall|k: int, j: int|
        0 <= k < gs.len() && 1 <= j < gs[k].members@.len() ==> similar.ensures(
            (gs[k].leader, #[trigger] gs[k].members@[j]),
            true,
        )
}

/// Each leader was refused by `similar` against every earlier leader.
pub open spec fn leaders_refused<F: Fn(usize, usize) -> bool>(gs: Seq<Group>, similar: F) -> bool {
    forall|p: int, q: int|
        0 <= p < q < gs.len() ==> similar.ensures(((#[trigger] gs[p]).leader, (#[trigger] gs[q]).leader), false)
}

/// `x` comes before `y` in `s`.
pub open spec fn comes_before(s: Seq<usize>, x: usize, y: usize) -> bool {
    exists|p: int, q: int| 0 <= p < q < s.len() && s[p] == x && s[q] == y
}

/// Leader `a` is nearer to `c` than leader `b`: a smaller distance, or an equal
/// distance and a smaller index.
pub open spec fn nearer(a: usize, b: usize, c: usize) -> bool {
    dist(a, c) < dist(b, c) || (dist(a, c) == dist(b, c) && a < b)
}

/// Each member after the first was refused by `similar` against every leader
/// that came before it in `seen` and is nearer to it than its own leader.
pub open spec fn nearest_accepted<F: Fn(usize, usize) -> bool>(
    gs: Seq<Group>,
    seen: Seq<usize>,
    similar: F,
) -> bool {
    forall|k: int, j: int, k2: int|
        0 <= k < gs.len() && 1 <= j < gs[k].members@.len() && 0 <= k2 < gs.len() && comes_before(
            seen,
            gs[k2].leader,
            gs[k].members@[j],
        ) && nearer(gs[k2].leader, gs[k].leader, gs[k].members@[j]) ==> similar.ensures(
            ((#[trigger] gs[k2]).leader, #[trigger] gs[k].members@[j]),
            false,
        )
}

/// The entries of `s` appear in `seen` in the same order.
pub open spec fn in_order(s: Seq<usize>, seen: Seq<usize>) -> bool {
    forall|a: int, b: int| 0 <= a < b < s.len() ==> comes_before(seen, #[trigger] s[a], #[trigger] s[b])
}

/// Leaders, and each group's members, are in the order of `seen`.
pub open spec fn follows_order(gs: Seq<Group>, seen: Seq<usize>) -> bool {
    &&& in_order(leaders_of(gs), seen)
    &&& forall|k: int| 0 <= k < gs.len() ==> in_order((#[trigger] gs[k]).members@, seen)
}

/// Every member of every group is among `seen`.
pub open spec fn members_among(gs: Seq<Group>, seen: Seq<usize>) -> bool {
    forall|k: int, j: int|
        0 <= k < gs.len() && 0 <= j < gs[k].members@.len() ==> seen.contains(
            #[trigger] gs[k].members@[j],
        )
}

proof fn lemma_nearest_step<F: Fn(usize, usize) -> bool>(
    old_gs: Seq<Group>,
    new_gs: Seq<Group>,
    idx: Seq<usize>,
    i: int,
    d: Option<usize>,
    order: Seq<usize>,
    full: Seq<usize>,
    limit: usize,
    similar: F,
)
    requires
        0 <= i < idx.len(),
        idx.no_duplicates(),
        groups_wf(old_gs),
        nearest_accepted(old_gs, idx, similar),
        members_among(old_gs, idx.take(i)),
        follows_order(old_gs, idx),
        admitted(old_gs, new_gs, idx[i], d),
        is_probe_order(full, leaders_of(old_gs), idx[i]),
        order == full.take(
            if limit < full.len() {
                limit as int
            } else {
                full.len() as int
            },
        ),
        is_first_match(d, order, idx[i], similar),
    ensures
        nearest_accepted(new_gs, idx, similar),
        members_among(new_gs, idx.take(i + 1)),
        follows_order(new_gs, idx),
{
    let c = idx[i];
    assert(idx.take(i + 1) =~= idx.take(i).push(c));
    assert forall|m: usize| #[trigger] idx.take(i).contains(m) implies comes_before(idx, m, c) by {
        let p = choose|p: int| 0 <= p < i && idx.take(i)[p] == m;
        assert(idx[p] == m);
    }
    match d {
        Some(l) => {
            let k = choose|k: int|
                #![trigger old_gs[k]]
                0 <= k < old_gs.len() && old_gs[k].leader == l && new_gs.len() == old_gs.len()
                    && new_gs[k].leader == l && new_gs[k].members@ == old_gs[k].members@.push(c)
                    && forall|j: int| 0 <= j < old_gs.len() && j != k ==> #[trigger] new_gs[j] == old_gs[j];
            let w = choose|w: int|
                #![trigger order[w]]
                0 <= w < order.len() && order[w] == l && similar.ensures((l, c), true) && forall|j: int|
                    0 <= j < w ==> similar.ensures((#[trigger] order[j], c), false);
            assert forall|k1: int, j: int, k2: int|
                0 <= k1 < new_gs.len() && 1 <= j < new_gs[k1].members@.len() && 0 <= k2 < new_gs.len()
                    && comes_before(idx, new_gs[k2].leader, new_gs[k1].members@[j]) && nearer(
                    new_gs[k2].leader,
                    new_gs[k1].leader,
                    new_gs[k1].members@[j],
                ) implies similar.ensures(
                ((#[trigger] new_gs[k2]).leader, #[trigger] new_gs[k1].members@[j]),
                false,
            ) by {
                assert(new_gs[k2].leader == old_gs[k2].leader);
                if k1 == k && j == old_gs[k].members@.len() {
                    let l2 = old_gs[k2].leader;
                    assert(leaders_of(old_gs)[k2] == l2);
                    assert(full.contains(l2));
                    let u = choose|u: int| 0 <= u < full.len() && full[u] == l2;
                    assert(full[w] == l);
                    if u > w {
                        assert(pair_le((dist(full[w], c), full[w]), (dist(full[u], c), full[u])));
                    } else if u < w {
                        assert(order[u] == l2);
                    }
                } else if k1 == k {
                    assert(new_gs[k1].members@[j] == old_gs[k1].members@[j]);
                } else {
                    assert(new_gs[k1] == old_gs[k1]);
                }
            }
            assert forall|k1: int, j: int|
                0 <= k1 < new_gs.len() && 0 <= j < new_gs[k1].members@.len() implies idx.take(
                i + 1,
            ).contains(#[trigger] new_gs[k1].members@[j]) by {
                if k1 == k && j == old_gs[k].members@.len() {
                    assert(idx.take(i + 1)[i] == c);
                } else {
                    if k1 == k {
                        assert(new_gs[k1].members@[j] == old_gs[k1].members@[j]);
                    } else {
                        assert(new_gs[k1] == old_gs[k1]);
                    }
                    assert(idx.take(i).contains(old_gs[k1].members@[j]));
                    let p = choose|p: int| 0 <= p < i && idx.take(i)[p] == old_gs[k1].members@[j];
                    assert(idx.take(i + 1)[p] == old_gs[k1].members@[j]);
                }
            }
            assert(leaders_of(new_gs) =~= leaders_of(old_gs)) by {
                assert forall|t: int| 0 <= t < new_gs.len() implies new_gs[t].leader == old_gs[t].leader by {
                    if t != k {
                        assert(new_gs[t] == old_gs[t]);
                    }
                }
            }
            assert forall|k1: int| 0 <= k1 < new_gs.len() implies in_order(
                (#[trigger] new_gs[k1]).members@,
                idx,
            ) by {
                if k1 == k {
                    let ms = new_gs[k1].members@;
                    assert forall|a: int, b: int| 0 <= a < b < ms.len() implies comes_before(
                        idx,
                        #[trigger] ms[a],
                        #[trigger] ms[b],
                    ) by {
                        assert(ms[a] == old_gs[k].members@[a]);
                        if b == ms.len() - 1 {
                            assert(idx.take(i).contains(old_gs[k].members@[a]));
                        } else {
                            assert(ms[b] == old_gs[k].members@[b]);
                        }
                    }
                } else {
                    assert(new_gs[k1] == old_gs[k1]);
                }
            }
        },
        None => {
            assert forall|k1: int, j: int, k2: int|
                0 <= k1 < new_gs.len() && 1 <= j < new_gs[k1].members@.len() && 0 <= k2 < new_gs.len()
                    && comes_before(idx, new_gs[k2].leader, new_gs[k1].members@[j]) && nearer(
                    new_gs[k2].leader,
                    new_gs[k1].leader,
                    new_gs[k1].members@[j],
                ) implies similar.ensures(
                ((#[trigger] new_gs[k2]).leader, #[trigger] new_gs[k1].members@[j]),
                false,
            ) by {
                if k1 < old_gs.len() {
                    assert(new_gs[k1] == old_gs[k1]);
                    if k2 < old_gs.len() {
                        assert(new_gs[k2] == old_gs[k2]);
                    } else {
                        let m = old_gs[k1].members@[j];
                        assert(idx.take(i).contains(m));
                        let pm = choose|pm: int| 0 <= pm < i && idx.take(i)[pm] == m;
                        let (p, q) = choose|p: int, q: int|
                            0 <= p < q < idx.len() && idx[p] == c && idx[q] == m;
                        assert(idx[pm] == m);
                        assert(p == i);
                        assert(q == pm);
                    }
                }
            }
            assert forall|k1: int, j: int|
                0 <= k1 < new_gs.len() && 0 <= j < new_gs[k1].members@.len() implies idx.take(
                i + 1,
            ).contains(#[trigger] new_gs[k1].members@[j]) by {
                if k1 < old_gs.len() {
                    assert(new_gs[k1] == old_gs[k1]);
                    assert(idx.take(i).contains(old_gs[k1].members@[j]));
                    let p = choose|p: int| 0 <= p < i && idx.take(i)[p] == old_gs[k1].members@[j];
                    assert(idx.take(i + 1)[p] == old_gs[k1].members@[j]);
                } else {
                    assert(idx.take(i + 1)[i] == c);
                }
            }
            assert(leaders_of(new_gs) =~= leaders_of(old_gs).push(c));
            let ls = leaders_of(new_gs);
            assert forall|a: int, b: int| 0 <= a < b < ls.len() implies comes_before(
                idx,
                #[trigger] ls[a],
                #[trigger] ls[b],
            ) by {
                assert(ls[a] == leaders_of(old_gs)[a]);
                if b == ls.len() - 1 {
                    assert(old_gs[a].members@[0] == old_gs[a].leader);
                    assert(idx.take(i).contains(old_gs[a].members@[0]));
                } else {
                    assert(ls[b] == leaders_of(old_gs)[b]);
                }
            }
            assert forall|k1: int| 0 <= k1 < new_gs.len() implies in_order(
                (#[trigger] new_gs[k1]).members@,
                idx,
            ) by {
                if k1 < old_gs.len() {
                    assert(new_gs[k1] == old_gs[k1]);
                }
            }
        },
    }
}

/// Groups one shard: each index in turn joins the first of its nearest `limit`
/// leaders that `similar` accepts, or leads a new group.
pub fn worker_group_accounts_bottommost<F: Fn(usize, usize) -> bool>(
    index_list: &Vec<usize>,
    limit: usize,
    similar: &F,
) -> (r: GroupMap)
    requires
        index_list@.no_duplicates(),
        forall|a: usize, b: usize| similar.requires((a, b)),
    ensures
        r.wf(),
        all_members(r.groups@) == index_list@.to_multiset(),
        members_accepted(r.groups@, *similar),
        nearest_accepted(r.groups@, index_list@, *similar),
        follows_order(r.groups@, index_list@),
        limit >= index_list@.len() ==> leaders_refused(r.groups@, *similar),
{
    let mut group_map = GroupMap::new();
    let mut i: usize = 0;
    while i < index_list.len()
        invariant
            i <= index_list@.len(),
            index_list@.no_duplicates(),
            forall|a: usize, b: usize| similar.requires((a, b)),
            group_map.wf(),
            all_members(group_map.groups@) == index_list@.take(i as int).to_multiset(),
            forall|t: int|
                0 <= t < group_map.groups@.len() ==> index_list@.take(i as int).contains(
                    (#[trigger] group_map.groups@[t]).leader,
                ),
            group_map.groups@.len() <= i,
            members_accepted(group_map.groups@, *similar),
            nearest_accepted(group_map.groups@, index_list@, *similar),
            members_among(group_map.groups@, index_list@.take(i as int)),
            follows_order(group_map.groups@, index_list@),
            limit >= index_list@.len() ==> leaders_refused(group_map.groups@, *similar),
        decreases index_list@.len() - i,
    {
        let c = index_list[i];
        let ghost old_gs = group_map.groups@;
        proof {
            if leaders_of(old_gs).contains(c) {
                let t = choose|t: int| 0 <= t < leaders_of(old_gs).len() && leaders_of(old_gs)[t] == c;
                assert(index_list@.take(i as int).contains(old_gs[t].leader));
            }
        }
        let d = integrate_account_into_groups(c, &mut group_map, limit, similar);
        let ghost new_gs = group_map.groups@;
        proof {
            assert(index_list@.take(i + 1) =~= index_list@.take(i as int).push(c));
            let order = choose|order: Seq<usize>|
                #![trigger is_capped_probe_order(order, leaders_of(old_gs), c, limit)]
                is_capped_probe_order(order, leaders_of(old_gs), c, limit)
                    && is_first_match(d, order, c, *similar);
            let full = choose|full: Seq<usize>|
                #[trigger] is_probe_order(full, leaders_of(old_gs), c) && order == full.take(
                    if limit < full.len() {
                        limit as int
                    } else {
                        full.len() as int
                    },
                );
            lemma_nearest_step(old_gs, new_gs, index_list@, i as int, d, order, full, limit, *similar);
            match d {
                Some(l) => {
                    let k = choose|k: int|
                        #![trigger old_gs[k]]
                        0 <= k < old_gs.len() && old_gs[k].leader == l && new_gs.len() == old_gs.len()
                            && new_gs[k].leader == l && new_gs[k].members@ == old_gs[k].members@.push(c)
                            && forall|j: int|
                            0 <= j < old_gs.len() && j != k ==> #[trigger] new_gs[j] == old_gs[j];
                    let w = choose|w: int|
                        #![trigger order[w]]
                        0 <= w < order.len() && order[w] == l && similar.ensures((l, c), true)
                            && forall|j: int| 0 <= j < w ==> similar.ensures((#[trigger] order[j], c), false);
                    assert forall|t: int, j: int|
                        0 <= t < new_gs.len() && 1 <= j < new_gs[t].members@.len() implies similar.ensures(
                        (new_gs[t].leader, #[trigger] new_gs[t].members@[j]),
                        true,
                    ) by {
                        if t != k {
                            assert(new_gs[t] == old_gs[t]);
                        }
                    }
                    assert forall|t: int| 0 <= t < new_gs.len() implies index_list@.take(i + 1).contains(
                        (#[trigger] new_gs[t]).leader,
                    ) by {
                        if t != k {
                            assert(new_gs[t] == old_gs[t]);
                        }
                        assert(index_list@.take(i as int).contains(old_gs[t].leader));
                    }
                    if limit >= index_list@.len() {
                        assert forall|p: int, q: int| 0 <= p < q < new_gs.len() implies similar.ensures(
                            ((#[trigger] new_gs[p]).leader, (#[trigger] new_gs[q]).leader),
                            false,
                        ) by {
                            assert(new_gs[p].leader == old_gs[p].leader);
                            assert(new_gs[q].leader == old_gs[q].leader);
                            assert(similar.ensures((old_gs[p].leader, old_gs[q].leader), false));
                        }
                    }
                },
                None => {
                    assert forall|t: int, j: int|
                        0 <= t < new_gs.len() && 1 <= j < new_gs[t].members@.len() implies similar.ensures(
                        (new_gs[t].leader, #[trigger] new_gs[t].members@[j]),
                        true,
                    ) by {
                        if t < old_gs.len() {
                            assert(new_gs[t] == old_gs[t]);
                        }
                    }
                    assert forall|t: int| 0 <= t < new_gs.len() implies index_list@.take(i + 1).contains(
                        (#[trigger] new_gs[t]).leader,
                    ) by {
                        if t < old_gs.len() {
                            assert(new_gs[t] == old_gs[t]);
                            assert(index_list@.take(i as int).contains(old_gs[t].leader));
                        } else {
                            assert(index_list@.take(i + 1)[i as int] == c);
                        }
                    }
                    if limit >= index_list@.len() {
                        assert(order == full);
                        assert forall|p: int, q: int| 0 <= p < q < new_gs.len() implies similar.ensures(
                            ((#[trigger] new_gs[p]).leader, (#[trigger] new_gs[q]).leader),
                            false,
                        ) by {
                            assert(new_gs[p] == old_gs[p]);
                            if q < old_gs.len() {
                                assert(new_gs[q] == old_gs[q]);
                            } else {
                                assert(leaders_of(old_gs)[p] == old_gs[p].leader);
                                assert(full.contains(old_gs[p].leader));
                            }
                        }
                    }
                },
            }
        }
        i += 1;
    }
    assert(index_list@.take(i as int) =~= index_list@);
    group_map
}

/// Whether `x` is one of the entries of `v`.
pub fn contains_index(v: &Vec<usize>, x: usize) -> (r: bool)
    ensures
        r == v@.contains(x),
{
    let mut k: usize = 0;
    while k < v.len()
        invariant
            k <= v@.len(),
            forall|j: int| 0 <= j < k ==> v@[j] != x,
        decreases v@.len() - k,
    {
        if v[k] == x {
            return true;
        }
        k += 1;
    }
    false
}
/// A group as its leader and its member list.
pub open spec fn group_view(g: Group) -> (usize, Seq<usize>) {
    (g.leader, g.members@)
}

/// The groups as leaders and member lists.
pub open spec fn groups_view(gs: Seq<Group>) -> Seq<(usize, Seq<usize>)> {
    gs.map_values(|g: Group| group_view(g))
}

/// The decision for source leader `s` in a merge: the first leader of the
/// snapshot, nearest first, that `similar` accepts.
pub open spec fn merge_decision<F: Fn(usize, usize) -> bool>(
    snapshot: Seq<usize>,
    s: usize,
    d: Option<usize>,
    similar: F,
) -> bool {
    exists|order: Seq<usize>|
        #[trigger] is_probe_order(order, snapshot, s) && is_first_match(d, order, s, similar)
}

/// `gs` after source group `g` was fused by decision `d`: for `Some(l)` the
/// whole member list of `g` is appended, in order, to the group led by `l`; for
/// `None`, `g` is added unchanged as a new last group unless `snapshot` already
/// has its leader. Nothing else changes.
pub open spec fn fused(
    gs: Seq<(usize, Seq<usize>)>,
    snapshot: Seq<usize>,
    g: (usize, Seq<usize>),
    d: Option<usize>,
) -> Seq<(usize, Seq<usize>)> {
    match d {
        Some(l) => gs.map_values(
            |e: (usize, Seq<usize>)|
                if e.0 == l {
                    (e.0, e.1 + g.1)
                } else {
                    e
                },
        ),
        None => if snapshot.contains(g.0) {
            gs
        } else {
            gs.push(g)
        },
    }
}

/// `gs` after the source groups `src` were fused in order, by decisions `ds`.
pub open spec fn merged(
    gs: Seq<(usize, Seq<usize>)>,
    snapshot: Seq<usize>,
    src: Seq<(usize, Seq<usize>)>,
    ds: Seq<Option<usize>>,
) -> Seq<(usize, Seq<usize>)>
    decreases src.len(),
{
    if src.len() == 0 {
        gs
    } else {
        fused(merged(gs, snapshot, src.drop_last(), ds.drop_last()), snapshot, src.last(), ds.last())
    }
}

/// Each group of `old` is still at its place in `new`, with the same leader and
/// its old members first.
pub open spec fn keeps_groups(old: Seq<Group>, new: Seq<Group>) -> bool {
    &&& old.len() <= new.len()
    &&& forall|p: int|
        0 <= p < old.len() ==> (#[trigger] new[p]).leader == old[p].leader && old[p].members@.len()
            <= new[p].members@.len() && new[p].members@.take(old[p].members@.len() as int)
            == old[p].members@
}

/// Fuses one source group `g` into `dst`: it joins the group of the first
/// leader of `snapshot`, nearest first, that `similar` accepts for its leader,
/// or becomes a group of its own unless `snapshot` already has its leader.
#[verifier::rlimit(60)]
fn fuse_group<F: Fn(usize, usize) -> bool>(
    dst: &mut GroupMap,
    snapshot: &Vec<usize>,
    g: &Group,
    similar: &F,
) -> (d: Option<usize>)
    requires
        old(dst).wf(),
        g.members@.len() > 0,
        g.members@[0] == g.leader,
        snapshot@.len() <= old(dst).groups@.len(),
        leaders_of(old(dst).groups@).take(snapshot@.len() as int) == snapshot@,
        !leaders_of(old(dst).groups@).skip(snapshot@.len() as int).contains(g.leader),
        forall|a: usize, b: usize| similar.requires((a, b)),
    ensures
        final(dst).wf(),
        merge_decision(snapshot@, g.leader, d, *similar),
        groups_view(final(dst).groups@) == fused(
            groups_view(old(dst).groups@),
            snapshot@,
            group_view(*g),
            d,
        ),
        keeps_groups(old(dst).groups@, final(dst).groups@),
        final(dst).groups@.len() <= old(dst).groups@.len() + 1,
        leaders_of(final(dst).groups@).take(old(dst).groups@.len() as int) == leaders_of(
            old(dst).groups@,
        ),
        final(dst).groups@.len() > old(dst).groups@.len() ==> final(dst).groups@.last().leader
            == g.leader,
        !snapshot@.contains(g.leader) ==> all_members(final(dst).groups@) == all_members(
            old(dst).groups@,
        ).add(g.members@.to_multiset()),
{
    broadcast use vstd::multiset::group_multiset_axioms;

    let ghost cur = dst.groups@;
    let s = g.leader;
    let order = probe_order(snapshot, s);
    let d = first_similar(&order, s, similar);
    let mut part = copy_range(&g.members, 0, g.members.len());
    assert(part@ =~= g.members@);
    assert(merge_decision(snapshot@, s, d, *similar));
    match d {
        Some(l) => {
            proof {
                let w = choose|w: int|
                    #![trigger order@[w]]
                    0 <= w < order@.len() && order@[w] == l && similar.ensures((l, s), true)
                        && forall|j: int| 0 <= j < w ==> similar.ensures((#[trigger] order@[j], s), false);
                assert(snapshot@.contains(l));
                let q = choose|q: int| 0 <= q < snapshot@.len() && snapshot@[q] == l;
                assert(leaders_of(cur).take(snapshot@.len() as int)[q] == l);
                assert(cur[q].leader == l);
            }
            let mut p: usize = 0;
            while p < dst.groups.len() && dst.groups[p].leader != l
                invariant
                    dst.groups@ == cur,
                    p <= cur.len(),
                    exists|q: int| 0 <= q < cur.len() && (#[trigger] cur[q]).leader == l,
                    forall|j: int| 0 <= j < p ==> (#[trigger] cur[j]).leader != l,
                decreases cur.len() - p,
            {
                p += 1;
            }
            let ghost g_old = cur[p as int];
            dst.groups[p].members.append(&mut part);
            proof {
                let new_gs = dst.groups@;
                assert(new_gs == cur.update(p as int, new_gs[p as int]));
                assert(new_gs[p as int].members@ == g_old.members@ + g.members@);
                assert(leaders_of(new_gs) =~= leaders_of(cur));
                assert(new_gs[p as int].members@[0] == g_old.members@[0]);
                lemma_all_members_update(cur, p as int, new_gs[p as int]);
                let a = all_members(new_gs);
                let b = all_members(cur);
                let m = g_old.members@.to_multiset();
                let sm = g.members@.to_multiset();
                vstd::seq_lib::lemma_multiset_commutative(g_old.members@, g.members@);
                assert(a.add(m) == b.add(m.add(sm)));
                assert forall|x: usize| #[trigger] a.count(x) == b.add(sm).count(x) by {
                    assert(a.add(m).count(x) == b.add(m.add(sm)).count(x));
                }
                assert(a =~= b.add(sm));
                let f = fused(groups_view(cur), snapshot@, group_view(*g), d);
                assert forall|t: int| 0 <= t < new_gs.len() implies #[trigger] groups_view(new_gs)[t]
                    == f[t] by {
                    if t != p {
                        assert(new_gs[t] == cur[t]);
                        assert(leaders_of(cur)[t] != leaders_of(cur)[p as int]);
                    }
                }
                assert(groups_view(new_gs) =~= f);
                assert forall|t: int| 0 <= t < cur.len() implies (#[trigger] new_gs[t]).leader
                    == cur[t].leader && cur[t].members@.len() <= new_gs[t].members@.len()
                    && new_gs[t].members@.take(cur[t].members@.len() as int) == cur[t].members@ by {
                    if t == p {
                        assert(new_gs[t].members@.take(cur[t].members@.len() as int) =~= cur[t].members@);
                    } else {
                        assert(new_gs[t] == cur[t]);
                        assert(new_gs[t].members@.take(cur[t].members@.len() as int) =~= cur[t].members@);
                    }
                }
                assert(leaders_of(new_gs).take(cur.len() as int) =~= leaders_of(cur));
            }
        },
        None => {
            if !contains_index(snapshot, s) {
                dst.groups.push(Group { leader: s, members: part });
                proof {
                    let new_gs = dst.groups@;
                    let ng = new_gs.last();
                    assert(new_gs =~= cur.push(ng));
                    lemma_all_members_push(cur, ng);
                    assert(leaders_of(new_gs) =~= leaders_of(cur).push(s));
                    assert(leaders_of(new_gs).take(cur.len() as int) =~= leaders_of(cur));
                    assert(!leaders_of(cur).contains(s)) by {
                        if leaders_of(cur).contains(s) {
                            let t = choose|t: int| 0 <= t < cur.len() && leaders_of(cur)[t] == s;
                            if t < snapshot@.len() {
                                assert(leaders_of(cur).take(snapshot@.len() as int)[t] == s);
                                assert(snapshot@.contains(s));
                            } else {
                                assert(leaders_of(cur).skip(snapshot@.len() as int)[t - snapshot@.len()] == s);
                            }
                        }
                    }
                    assert forall|i: int, j: int|
                        0 <= i < leaders_of(new_gs).len() && 0 <= j < leaders_of(new_gs).len() && i != j
                        implies leaders_of(new_gs)[i] != leaders_of(new_gs)[j] by {
                        if i == cur.len() {
                            assert(leaders_of(cur)[j] == leaders_of(new_gs)[j]);
                        }
                        if j == cur.len() {
                            assert(leaders_of(cur)[i] == leaders_of(new_gs)[i]);
                        }
                    }
                    assert(groups_view(new_gs) =~= groups_view(cur).push(group_view(*g)));
                    assert forall|t: int| 0 <= t < cur.len() implies (#[trigger] new_gs[t]).leader
                        == cur[t].leader && cur[t].members@.len() <= new_gs[t].members@.len()
                        && new_gs[t].members@.take(cur[t].members@.len() as int) == cur[t].members@ by {
                        assert(new_gs[t] == cur[t]);
                        assert(new_gs[t].members@.take(cur[t].members@.len() as int) =~= cur[t].members@);
                    }
                    assert(all_members(new_gs) =~= all_members(cur).add(g.members@.to_multiset()));
                }
            } else {
                proof {
                    assert(leaders_of(dst.groups@).take(cur.len() as int) =~= leaders_of(cur));
                    assert forall|t: int| 0 <= t < cur.len() implies (#[trigger] cur[t]).members@.take(
                        cur[t].members@.len() as int,
                    ) == cur[t].members@ by {
                        assert(cur[t].members@.take(cur[t].members@.len() as int) =~= cur[t].members@);
                    }
                }
            }
        },
    }
    d
}

/// Merges `src` into `dst`. Against the leaders `dst` had before the merge, each
/// source group in turn finds the first of them, nearest first, that `similar`
/// accepts for its leader, and is appended whole to that group; a source group
/// with no such leader is added unchanged as a new group, unless its leader
/// already leads a group of `dst`.
pub fn integrate_two_group_map<F: Fn(usize, usize) -> bool>(
    dst: &mut GroupMap,
    src: &GroupMap,
    similar: &F,
)
    requires
        old(dst).wf(),
        src.wf(),
        forall|a: usize, b: usize| similar.requires((a, b)),
    ensures
        final(dst).wf(),
        exists|ds: Seq<Option<usize>>|
            #![trigger merged(groups_view(old(dst).groups@), leaders_of(old(dst).groups@), groups_view(src.groups@), ds)]
            ds.len() == src.groups@.len() && (forall|k: int|
                0 <= k < ds.len() ==> merge_decision(
                    leaders_of(old(dst).groups@),
                    (#[trigger] src.groups@[k]).leader,
                    ds[k],
                    *similar,
                )) && groups_view(final(dst).groups@) == merged(
                groups_view(old(dst).groups@),
                leaders_of(old(dst).groups@),
                groups_view(src.groups@),
                ds,
            ),
        keeps_groups(old(dst).groups@, final(dst).groups@),
        src.groups@.len() == 0 ==> final(dst).groups@ == old(dst).groups@,
        leaders_of(final(dst).groups@).take(old(dst).groups@.len() as int) == leaders_of(
            old(dst).groups@,
        ),
        (forall|t: int|
            0 <= t < src.groups@.len() ==> !leaders_of(old(dst).groups@).contains(
                (#[trigger] src.groups@[t]).leader,
            )) ==> all_members(final(dst).groups@) == all_members(old(dst).groups@).add(
            all_members(src.groups@),
        ),
{
    broadcast use vstd::multiset::group_multiset_axioms;

    let ghost old_gs = dst.groups@;
    let ghost sg = src.groups@;
    let ghost disjoint = forall|t: int|
        0 <= t < sg.len() ==> !leaders_of(old_gs).contains((#[trigger] sg[t]).leader);
    let ghost mut ds: Seq<Option<usize>> = Seq::empty();
    let snapshot = dst.leaders();
    assert forall|p: int| 0 <= p < old_gs.len() implies (#[trigger] old_gs[p]).members@.take(
        old_gs[p].members@.len() as int,
    ) == old_gs[p].members@ by {
        assert(old_gs[p].members@.take(old_gs[p].members@.len() as int) =~= old_gs[p].members@);
    }
    assert(groups_view(sg).take(0) =~= Seq::<(usize, Seq<usize>)>::empty());
    let mut k: usize = 0;
    while k < src.groups.len()
        invariant
            k <= sg.len(),
            sg == src.groups@,
            groups_wf(sg),
            snapshot@ == leaders_of(old_gs),
            disjoint == (forall|t: int|
                0 <= t < sg.len() ==> !leaders_of(old_gs).contains((#[trigger] sg[t]).leader)),
            forall|a: usize, b: usize| similar.requires((a, b)),
            dst.wf(),
            keeps_groups(old_gs, dst.groups@),
            k == 0 ==> dst.groups@ == old_gs,
            leaders_of(dst.groups@).take(old_gs.len() as int) == leaders_of(old_gs),
            forall|t: int|
                old_gs.len() <= t < dst.groups@.len() ==> exists|j: int|
                    0 <= j < k && (#[trigger] dst.groups@[t]).leader == sg[j].leader,
            disjoint ==> all_members(dst.groups@) == all_members(old_gs).add(
                all_members(sg.take(k as int)),
            ),
            ds.len() == k,
            forall|j: int|
                0 <= j < k ==> merge_decision(
                    leaders_of(old_gs),
                    (#[trigger] sg[j]).leader,
                    ds[j],
                    *similar,
                ),
            groups_view(dst.groups@) == merged(
                groups_view(old_gs),
                leaders_of(old_gs),
                groups_view(sg).take(k as int),
                ds,
            ),
        decreases sg.len() - k,
    {
        let ghost cur = dst.groups@;
        let ghost gk = sg[k as int];
        proof {
            assert(leaders_of(sg)[k as int] == gk.leader);
            if leaders_of(cur).skip(old_gs.len() as int).contains(gk.leader) {
                let t = choose|t: int|
                    0 <= t < leaders_of(cur).skip(old_gs.len() as int).len() && leaders_of(cur).skip(
                        old_gs.len() as int,
                    )[t] == gk.leader;
                assert(cur[t + old_gs.len()].leader == gk.leader);
                let j = choose|j: int|
                    0 <= j < k && (#[trigger] cur[t + old_gs.len()]).leader == sg[j].leader;
                assert(leaders_of(sg)[j] == gk.leader);
            }
        }
        let d = fuse_group(dst, &snapshot, &src.groups[k], similar);
        proof {
            let new_gs = dst.groups@;
            let ds0 = ds;
            ds = ds.push(d);
            assert(sg.take(k + 1) =~= sg.take(k as int).push(gk));
            let sv = groups_view(sg).take(k + 1);
            assert(sv.drop_last() =~= groups_view(sg).take(k as int));
            assert(ds.drop_last() =~= ds0);
            assert(sv.last() == group_view(gk));
            lemma_all_members_push(sg.take(k as int), gk);
            if disjoint {
                assert(!leaders_of(old_gs).contains(sg[k as int].leader));
                assert(all_members(new_gs) =~= all_members(old_gs).add(all_members(sg.take(k + 1))));
            }
            assert(leaders_of(new_gs).take(old_gs.len() as int) =~= leaders_of(cur).take(
                old_gs.len() as int,
            )) by {
                assert forall|t: int| 0 <= t < old_gs.len() implies leaders_of(new_gs)[t] == leaders_of(
                    cur,
                )[t] by {
                    assert(leaders_of(new_gs).take(cur.len() as int)[t] == leaders_of(cur)[t]);
                }
            }
            assert forall|t: int| old_gs.len() <= t < new_gs.len() implies exists|j: int|
                0 <= j < k + 1 && (#[trigger] new_gs[t]).leader == sg[j].leader by {
                if t < cur.len() {
                    assert(leaders_of(new_gs).take(cur.len() as int)[t] == leaders_of(cur)[t]);
                    assert(new_gs[t].leader == cur[t].leader);
                    let j = choose|j: int| 0 <= j < k && (#[trigger] cur[t]).leader == sg[j].leader;
                } else {
                    assert(new_gs[t].leader == sg[k as int].leader);
                }
            }
            assert forall|j: int| 0 <= j < k + 1 implies merge_decision(
                leaders_of(old_gs),
                (#[trigger] sg[j]).leader,
                ds[j],
                *similar,
            ) by {
                if j < k {
                    assert(ds[j] == ds0[j]);
                }
            }
            assert forall|p: int| 0 <= p < old_gs.len() implies (#[trigger] new_gs[p]).leader
                == old_gs[p].leader && old_gs[p].members@.len() <= new_gs[p].members@.len()
                && new_gs[p].members@.take(old_gs[p].members@.len() as int) == old_gs[p].members@ by {
                assert(cur[p].leader == old_gs[p].leader);
                assert(new_gs[p].members@.take(cur[p].members@.len() as int) == cur[p].members@);
                assert(cur[p].members@.take(old_gs[p].members@.len() as int) == old_gs[p].members@);
                assert(new_gs[p].members@.take(old_gs[p].members@.len() as int) =~= new_gs[p].members@.take(
                    cur[p].members@.len() as int,
                ).take(old_gs[p].members@.len() as int));
            }
        }
        k += 1;
    }
    proof {
        assert(groups_view(sg).take(k as int) =~= groups_view(sg));
        assert(sg.take(k as int) =~= sg);
    }
}

/// A group is kept by the low-frequency filter when it has at least `threshold` members.
pub open spec fn large_enough(threshold: usize) -> spec_fn(Group) -> bool {
    |g: Group| g.members@.len() >= threshold
}

/// Drops the groups with fewer than `threshold` members, keeping the order of the others.
pub fn filter_low_frequency_data(src: &mut GroupMap, threshold: usize)
    requires
        old(src).wf(),
    ensures
        final(src).groups@ == old(src).groups@.filter(large_enough(threshold)),
        final(src).wf(),
{
    let ghost orig = src.groups@;
    let ghost n = orig.len();
    let mut rest: Vec<Group> = Vec::new();
    std::mem::swap(&mut src.groups, &mut rest);
    let mut rev: Vec<Group> = Vec::new();
    while rest.len() > 0
        invariant
            rest@ == orig.take(rest@.len() as int),
            rest@.len() <= n,
            n == orig.len(),
            rev@.len() == n - rest@.len(),
            forall|i: int| 0 <= i < rev@.len() ==> #[trigger] rev@[i] == orig[n - 1 - i],
        decreases rest@.len(),
    {
        let g = rest.pop().unwrap();
        rev.push(g);
        assert(rest@ =~= orig.take(rest@.len() as int));
    }
    let mut out: Vec<Group> = Vec::new();
    while rev.len() > 0
        invariant
            n == orig.len(),
            rev@.len() <= n,
            forall|i: int| 0 <= i < rev@.len() ==> #[trigger] rev@[i] == orig[n - 1 - i],
            out@ == orig.take(n - rev@.len()).filter(large_enough(threshold)),
        decreases rev@.len(),
    {
        let ghost done = n - rev@.len();
        let g = rev.pop().unwrap();
        assert(g == orig[done]);
        proof {
            reveal(Seq::filter);
            assert(orig.take(done + 1).drop_last() =~= orig.take(done));
            assert(orig.take(done + 1).last() == g);
        }
        if g.members.len() >= threshold {
            out.push(g);
        }
    }
    assert(orig.take(n as int) =~= orig);
    proof {
        let f = orig.filter(large_enough(threshold));
        broadcast use vstd::seq_lib::group_filter_ensures;

        assert forall|i: int| 0 <= i < f.len() implies orig.contains(#[trigger] f[i]) by {
            assert(f.contains(f[i]));
            orig.lemma_filter_contains_rev(large_enough(threshold), f[i]);
        }
        lemma_filter_keeps_wf(orig, threshold);
    }
    src.groups = out;
}

proof fn lemma_filter_keeps_wf(gs: Seq<Group>, threshold: usize)
    requires
        groups_wf(gs),
    ensures
        groups_wf(gs.filter(large_enough(threshold))),
    decreases gs.len(),
{
    reveal(Seq::filter);
    if gs.len() > 0 {
        let init = gs.drop_last();
        assert(leaders_of(init) =~= leaders_of(gs).drop_last());
        assert forall|k: int| 0 <= k < init.len() implies (#[trigger] init[k]).members@.len() > 0
            && init[k].members@[0] == init[k].leader by {
            assert(init[k] == gs[k]);
        }
        lemma_filter_keeps_wf(init, threshold);
        let f0 = init.filter(large_enough(threshold));
        if large_enough(threshold)(gs.last()) {
            let f = f0.push(gs.last());
            assert(leaders_of(f) =~= leaders_of(f0).push(gs.last().leader));
            assert(!leaders_of(f0).contains(gs.last().leader)) by {
                if leaders_of(f0).contains(gs.last().leader) {
                    let t = choose|t: int| 0 <= t < f0.len() && leaders_of(f0)[t] == gs.last().leader;
                    assert(f0.contains(f0[t]));
                    init.lemma_filter_contains_rev(large_enough(threshold), f0[t]);
                    let j = choose|j: int| 0 <= j < init.len() && init[j] == f0[t];
                    assert(leaders_of(gs)[j] == leaders_of(gs)[gs.len() - 1]);
                }
            }
            assert forall|i: int, j: int|
                0 <= i < leaders_of(f).len() && 0 <= j < leaders_of(f).len() && i != j implies leaders_of(
                f,
            )[i] != leaders_of(f)[j] by {
                if i == f0.len() {
                    assert(leaders_of(f0)[j] == leaders_of(f)[j]);
                }
                if j == f0.len() {
                    assert(leaders_of(f0)[i] == leaders_of(f)[i]);
                }
            }
            assert forall|k: int| 0 <= k < f.len() implies (#[trigger] f[k]).members@.len() > 0
                && f[k].members@[0] == f[k].leader by {
                if k < f0.len() {
                    assert(f[k] == f0[k]);
                }
            }
        }
    }
}

proof fn lemma_singletons_count(gs: Seq<Group>)
    requires
        forall|k: int| 0 <= k < gs.len() ==> (#[trigger] gs[k]).members@.len() == 1,
    ensures
        all_members(gs).len() == gs.len(),
    decreases gs.len(),
{
    if gs.len() > 0 {
        let init = gs.drop_last();
        assert forall|k: int| 0 <= k < init.len() implies (#[trigger] init[k]).members@.len() == 1 by {
            assert(init[k] == gs[k]);
        }
        lemma_singletons_count(init);
        gs.last().members@.to_multiset_ensures();
    }
}

/// When `similar` accepts no pair, grouping a shard leaves every index alone:
/// each group holds its leader only, and there are as many groups as indices.
pub proof fn lemma_refusing_similarity_gives_singletons<F: Fn(usize, usize) -> bool>(
    gs: Seq<Group>,
    index_list: Seq<usize>,
    similar: F,
)
    requires
        groups_wf(gs),
        members_accepted(gs, similar),
        all_members(gs) == index_list.to_multiset(),
        forall|a: usize, b: usize, r: bool| #[trigger] similar.ensures((a, b), r) ==> !r,
    ensures
        forall|k: int| 0 <= k < gs.len() ==> (#[trigger] gs[k]).members@.len() == 1,
        gs.len() == index_list.len(),
{
    assert forall|k: int| 0 <= k < gs.len() implies (#[trigger] gs[k]).members@.len() == 1 by {
        if gs[k].members@.len() > 1 {
            assert(similar.ensures((gs[k].leader, gs[k].members@[1]), true));
        }
    }
    lemma_singletons_count(gs);
    index_list.to_multiset_ensures();
}

} // verus!
