use vstd::prelude::*;
use crate::shard::lists_view;
use crate::grouping::{
    groups_wf, lemma_member_counted, worker_group_accounts_bottommost,
    all_members, filter_low_frequency_data, groups_view, integrate_two_group_map, keeps_groups,
    large_enough, leaders_of, merge_decision, merged, Group, GroupMap,
};

verus! {

/// How much accuracy the grouping trades for speed.
#[derive(Clone, Copy, PartialEq, Eq, Structural, Debug)]
pub enum EfficiencyMode {
    Accurately,
    Normal,
    Quickly,
    Rapidly,
}

impl EfficiencyMode {
    /// The default mode.
    pub fn default() -> (r: EfficiencyMode)
        ensures
            r == EfficiencyMode::Quickly,
    {
        EfficiencyMode::Quickly
    }
}

/// How many of the nearest leaders the fast modes try for each index.
pub const FAST_PROBE_LIMIT: usize = 16;

/// Shard width below the massive-data threshold.
pub const SMALL_GRANULARITY: usize = 400;

/// Per-shard minimum group size below the massive-data threshold, at most.
pub const SMALL_SHARD_MIN_MEMBERS: usize = 4;

/// How a grouping run is carried out.
#[derive(Clone, Copy, PartialEq, Eq, Structural, Debug)]
pub struct GroupingPlan {
    /// Shard width.
    pub granularity: usize,
    /// Groups smaller than this are dropped from a shard's result before merging,
    /// when `filter_shards` holds.
    pub shard_min_members: usize,
    pub filter_shards: bool,
    /// How many of the nearest leaders each index is tried against.
    pub probe_limit: usize,
}

/// The number of worker threads for `cores` processor cores.
pub open spec fn thread_max(cores: int) -> int {
    cores + 1
}

/// From this many names on, the data counts as massive.
pub open spec fn massive_threshold(cores: int) -> int {
    thread_max(cores) * thread_max(cores) * 600
}

/// The shard width for massive data.
pub open spec fn massive_granularity(cores: int) -> int {
    thread_max(cores) * thread_max(cores) * 400
}

/// Decides how to group `n` names on `cores` processor cores in mode `mode`,
/// with `min_members` as the final minimum group size.
pub fn grouping_plan(n: usize, cores: usize, mode: EfficiencyMode, min_members: usize) -> (r: GroupingPlan)
    requires
        massive_threshold(cores as int) <= usize::MAX,
    ensures
        r.granularity == if n >= massive_threshold(cores as int) {
            massive_granularity(cores as int)
        } else {
            SMALL_GRANULARITY as int
        },
        r.shard_min_members == if n >= massive_threshold(cores as int) {
            min_members
        } else if min_members < SMALL_SHARD_MIN_MEMBERS {
            min_members
        } else {
            SMALL_SHARD_MIN_MEMBERS
        },
        r.filter_shards == (mode == EfficiencyMode::Normal || mode == EfficiencyMode::Rapidly),
        r.probe_limit == if mode == EfficiencyMode::Quickly || mode == EfficiencyMode::Rapidly {
            FAST_PROBE_LIMIT
        } else {
            usize::MAX
        },
{
    assert(cores + 1 <= (cores + 1) * (cores + 1) * 600) by (nonlinear_arith)
        requires
            cores >= 0,
    ;
    let t = cores + 1;
    assert(t * t * 400 <= t * t * 600) by (nonlinear_arith);
    assert(t * t <= t * t * 400) by (nonlinear_arith);
    let massive = n >= t * t * 600;
    let granularity = if massive {
        t * t * 400
    } else {
        SMALL_GRANULARITY
    };
    let shard_min_members = if massive {
        min_members
    } else if min_members < SMALL_SHARD_MIN_MEMBERS {
        min_members
    } else {
        SMALL_SHARD_MIN_MEMBERS
    };
    let filter_shards = match mode {
        EfficiencyMode::Normal | EfficiencyMode::Rapidly => true,
        _ => false,
    };
    let probe_limit = match mode {
        EfficiencyMode::Quickly | EfficiencyMode::Rapidly => FAST_PROBE_LIMIT,
        _ => usize::MAX,
    };
    GroupingPlan { granularity, shard_min_members, filter_shards, probe_limit }
}

/// Where the shards of one run are grouped.
#[derive(Clone, Copy, PartialEq, Eq, Structural, Debug)]
pub enum Dispatch {
    /// One shard: grouped on the calling thread, its result taken as it is.
    Inline,
    /// One scoped thread per shard.
    Scoped,
    /// A pool of `cores + 1` worker threads.
    Pool,
}

/// Chooses where `shard_count` shards are grouped on `cores` processor cores.
pub fn dispatch_for(shard_count: usize, cores: usize) -> (r: Dispatch)
    requires
        cores < usize::MAX,
    ensures
        r == if shard_count <= 1 {
            Dispatch::Inline
        } else if shard_count <= thread_max(cores as int) {
            Dispatch::Scoped
        } else {
            Dispatch::Pool
        },
{
    if shard_count <= 1 {
        Dispatch::Inline
    } else if shard_count <= cores + 1 {
        Dispatch::Scoped
    } else {
        Dispatch::Pool
    }
}

/// The groups of a shard's result that the plan lets through to the merge.
pub open spec fn kept_groups(gs: Seq<Group>, plan: GroupingPlan) -> Seq<Group> {
    if plan.filter_shards {
        gs.filter(large_enough(plan.shard_min_members))
    } else {
        gs
    }
}

/// Takes one shard's group map into the running result: drops its small groups
/// first when the plan says so, then merges it.
pub fn absorb_shard_result<F: Fn(usize, usize) -> bool>(
    result: &mut GroupMap,
    shard_map: GroupMap,
    plan: &GroupingPlan,
    similar: &F,
)
    requires
        old(result).wf(),
        shard_map.wf(),
        forall|a: usize, b: usize| similar.requires((a, b)),
    ensures
        final(result).wf(),
        leaders_of(final(result).groups@).take(old(result).groups@.len() as int) == leaders_of(
            old(result).groups@,
        ),
        (forall|t: int|
            0 <= t < kept_groups(shard_map.groups@, *plan).len() ==> !leaders_of(
                old(result).groups@,
            ).contains((#[trigger] kept_groups(shard_map.groups@, *plan)[t]).leader))
            ==> all_members(final(result).groups@) == all_members(old(result).groups@).add(
            all_members(kept_groups(shard_map.groups@, *plan)),
        ),
        exists|ds: Seq<Option<usize>>|
            #![trigger merged(groups_view(old(result).groups@), leaders_of(old(result).groups@), groups_view(kept_groups(shard_map.groups@, *plan)), ds)]
            ds.len() == kept_groups(shard_map.groups@, *plan).len() && (forall|k: int|
                0 <= k < ds.len() ==> merge_decision(
                    leaders_of(old(result).groups@),
                    (#[trigger] kept_groups(shard_map.groups@, *plan)[k]).leader,
                    ds[k],
                    *similar,
                )) && groups_view(final(result).groups@) == merged(
                groups_view(old(result).groups@),
                leaders_of(old(result).groups@),
                groups_view(kept_groups(shard_map.groups@, *plan)),
                ds,
            ),
        keeps_groups(old(result).groups@, final(result).groups@),
        kept_groups(shard_map.groups@, *plan).len() == 0 ==> final(result).groups@ == old(
            result,
        ).groups@,
{
    let mut kept_map = shard_map;
    if plan.filter_shards {
        filter_low_frequency_data(&mut kept_map, plan.shard_min_members);
    }
    let ghost kept = kept_map.groups@;
    assert(kept == kept_groups(shard_map.groups@, *plan));
    let ghost before = result.groups@;
    integrate_two_group_map(result, &kept_map, similar);
    proof {
        let ds = choose|ds: Seq<Option<usize>>|
            #![trigger merged(groups_view(before), leaders_of(before), groups_view(kept), ds)]
            ds.len() == kept.len() && (forall|k: int|
                0 <= k < ds.len() ==> merge_decision(
                    leaders_of(before),
                    (#[trigger] kept[k]).leader,
                    ds[k],
                    *similar,
                )) && groups_view(result.groups@) == merged(
                groups_view(before),
                leaders_of(before),
                groups_view(kept),
                ds,
            );
        assert(merged(groups_view(before), leaders_of(before), groups_view(kept), ds) == groups_view(
            result.groups@,
        ));
    }
}

/// Groups each shard with the leaf grouper and takes the results in, one after
/// the other, by `absorb_shard_result`; a single shard's result is taken as it
/// is. Without shard filtering, every index of the shards ends in exactly one
/// group.
pub fn group_shards<F: Fn(usize, usize) -> bool>(
    shards: &Vec<Vec<usize>>,
    plan: &GroupingPlan,
    similar: &F,
) -> (r: GroupMap)
    requires
        lists_view(shards@).flatten().no_duplicates(),
        forall|a: usize, b: usize| similar.requires((a, b)),
    ensures
        r.wf(),
        !plan.filter_shards || shards@.len() == 1 ==> all_members(r.groups@) == lists_view(
            shards@,
        ).flatten().to_multiset(),
{
    broadcast use vstd::multiset::group_multiset_axioms;
    broadcast use vstd::seq_lib::group_to_multiset_ensures;

    let ghost sv = lists_view(shards@);
    if shards.len() == 1 {
        proof {
            assert(sv.flatten() == sv[0] + sv.drop_first().flatten());
            assert(sv.drop_first() =~= Seq::<Seq<usize>>::empty());
            assert(sv.flatten() =~= sv[0]);
        }
        return worker_group_accounts_bottommost(&shards[0], plan.probe_limit, similar);
    }
    let mut result = GroupMap::new();
    let mut k: usize = 0;
    while k < shards.len()
        invariant
            k <= sv.len(),
            sv == lists_view(shards@),
            sv.flatten().no_duplicates(),
            forall|a: usize, b: usize| similar.requires((a, b)),
            result.wf(),
            !plan.filter_shards ==> all_members(result.groups@) == sv.take(k as int).flatten().to_multiset(),
        decreases sv.len() - k,
    {
        let ghost before = result.groups@;
        proof {
            let fl = sv.take(k as int).flatten();
            assert(sv.take(k + 1) =~= sv.take(k as int).push(sv[k as int]));
            sv.take(k as int).lemma_flatten_push(sv[k as int]);
            assert(sv.take(k + 1).flatten() == fl + sv[k as int]);
            // the part of the flat list before shard k and shard k have no index in common
            assert(sv.take(k + 1).flatten().no_duplicates()) by {
                assert(sv.flatten() == sv.take(k + 1).flatten() + sv.skip(k + 1).flatten()) by {
                    assert(sv =~= sv.take(k + 1) + sv.skip(k + 1));
                    vstd::seq_lib::lemma_flatten_concat(sv.take(k + 1), sv.skip(k + 1));
                }
                let all = sv.flatten();
                let pre = sv.take(k + 1).flatten();
                assert forall|i: int, j: int| 0 <= i < pre.len() && 0 <= j < pre.len() && i != j implies pre[i]
                    != pre[j] by {
                    assert(all[i] == pre[i]);
                    assert(all[j] == pre[j]);
                }
            }
            assert(shards@[k as int]@ == sv[k as int]);
            assert(sv[k as int].no_duplicates()) by {
                let pre = fl + sv[k as int];
                assert forall|i: int, j: int|
                    0 <= i < sv[k as int].len() && 0 <= j < sv[k as int].len() && i != j implies sv[k as int][i]
                    != sv[k as int][j] by {
                    assert(pre[fl.len() + i] == sv[k as int][i]);
                    assert(pre[fl.len() + j] == sv[k as int][j]);
                }
            }
        }
        let shard_result = worker_group_accounts_bottommost(&shards[k], plan.probe_limit, similar);
        let ghost shard_gs = shard_result.groups@;
        assert(all_members(shard_gs) == sv[k as int].to_multiset());
        assert(groups_wf(shard_gs));
        absorb_shard_result(&mut result, shard_result, plan, similar);
        proof {
            let fl = sv.take(k as int).flatten();
            let sk = sv[k as int];
            let pre = fl + sk;
            if !plan.filter_shards {
                // every leader of the shard's result is an index of shard k
                assert forall|t: int| 0 <= t < shard_gs.len() implies sk.contains((#[trigger] shard_gs[t]).leader) by {
                    assert(shard_gs[t].members@[0] == shard_gs[t].leader);
                    lemma_member_counted(shard_gs, t, 0);
                    assert(sk.to_multiset().count(shard_gs[t].leader) > 0);
                    vstd::seq_lib::to_multiset_contains(sk, shard_gs[t].leader);
                }
                assert(kept_groups(shard_gs, *plan) == shard_gs);
                assert forall|t: int|
                    0 <= t < shard_gs.len() implies !leaders_of(before).contains(
                    (#[trigger] shard_gs[t]).leader,
                ) by {
                    let x = shard_gs[t].leader;
                    if leaders_of(before).contains(x) {
                        let q = choose|q: int| 0 <= q < before.len() && leaders_of(before)[q] == x;
                        assert(before[q].members@[0] == before[q].leader);
                        lemma_member_counted(before, q, 0);
                        assert(fl.to_multiset().count(x) > 0);
                        vstd::seq_lib::to_multiset_contains(fl, x);
                        assert(fl.contains(x));
                        let i = choose|i: int| 0 <= i < fl.len() && fl[i] == x;
                        let j = choose|j: int| 0 <= j < sk.len() && sk[j] == x;
                        assert(pre[i] == x);
                        assert(pre[fl.len() + j] == x);
                    }
                }
                assert(all_members(result.groups@) =~= pre.to_multiset()) by {
                    vstd::seq_lib::lemma_multiset_commutative(fl, sk);
                }
            }
        }
        k += 1;
    }
    proof {
        assert(sv.take(k as int) =~= sv);
    }
    result
}

} // verus!
