use account_name_sim::grouping::{
    filter_low_frequency_data, first_similar, integrate_two_group_map, probe_order,
    worker_group_accounts_bottommost, Group, GroupMap,
};
use account_name_sim::mode::{
    absorb_shard_result, dispatch_for, group_shards, grouping_plan, Dispatch, GroupingPlan,
    FAST_PROBE_LIMIT,
};
use account_name_sim::{CAccountNameAnaVec, EfficiencyMode};

fn map_of(groups: &[(usize, &[usize])]) -> GroupMap {
    GroupMap {
        groups: groups
            .iter()
            .map(|(l, m)| Group { leader: *l, members: m.to_vec() })
            .collect(),
    }
}

fn view(m: &GroupMap) -> Vec<(usize, Vec<usize>)> {
    m.groups.iter().map(|g| (g.leader, g.members.clone())).collect()
}

#[test]
fn group_account_name_by_similarity_it_works() {}

#[test]
fn collection_dedups_and_sorts_by_skeleton() {
    let names = vec!["a1f6", "aa11ff66", "b2c", "a1f55", "1", "b2c"];
    let ana = CAccountNameAnaVec::new(&names);
    assert_eq!(ana.to_vec(), vec!["1", "b2c", "a1f6", "a1f55", "aa11ff66"]);
    assert_eq!(ana.len(), 5);
}

#[test]
fn identical_names_give_one_record() {
    let names = vec!["x1", "x1", "x1", "x1"];
    let ana = CAccountNameAnaVec::new(&names);
    assert_eq!(ana.to_vec(), vec!["x1"]);
}

#[test]
fn empty_collection() {
    let names: Vec<&str> = vec![];
    let ana = CAccountNameAnaVec::new(&names);
    assert!(ana.to_vec().is_empty());
}

#[test]
fn granularity_splits_with_remainder() {
    let names = vec!["a"];
    let ana = CAccountNameAnaVec::new(&names);
    let idx: Vec<usize> = (0..10).collect();
    let r = ana.split_index_vec_by_granularity(&idx, 4);
    assert_eq!(r, vec![vec![0, 1, 2, 3], vec![4, 5, 6, 7], vec![8, 9]]);
    let idx: Vec<usize> = (0..9).collect();
    let r = ana.split_index_vec_by_granularity(&idx, 4);
    assert_eq!(r, vec![vec![0, 1, 2, 3], vec![4, 5, 6, 7, 8]]);
    let idx: Vec<usize> = (0..3).collect();
    let r = ana.split_index_vec_by_granularity(&idx, 400);
    assert_eq!(r, vec![vec![0, 1, 2]]);
    let idx: Vec<usize> = (0..8).collect();
    let r = ana.split_index_vec_by_granularity(&idx, 4);
    assert_eq!(r, vec![vec![0, 1, 2, 3], vec![4, 5, 6, 7]]);
}

#[test]
fn split_buckets_by_skeleton_largest_first() {
    let names = vec!["a1", "b2", "c3", "abc", "x", "y"];
    let ana = CAccountNameAnaVec::new(&names);
    assert_eq!(ana.to_vec(), vec!["x", "y", "abc", "a1", "b2", "c3"]);
    let idx: Vec<usize> = (0..6).collect();
    let buckets = ana.bucket_by_skeleton(&idx);
    assert_eq!(buckets, vec![vec![0, 1], vec![2], vec![3, 4, 5]]);
    let shards = ana.split_index_vec(&idx, 400);
    assert_eq!(shards, vec![vec![3, 4, 5], vec![0, 1], vec![2]]);
    let shards = ana.split_index_vec(&idx, 2);
    assert_eq!(shards, vec![vec![3, 4], vec![5], vec![0, 1], vec![2]]);
    let shards = ana.split_index_vec(&Vec::new(), 2);
    assert!(shards.is_empty());
}

#[test]
fn probe_order_nearest_first() {
    assert_eq!(probe_order(&vec![10, 3, 7, 12], 9), vec![10, 7, 12, 3]);
    assert_eq!(probe_order(&vec![10, 8], 9), vec![8, 10]);
    assert!(probe_order(&vec![], 9).is_empty());
}

#[test]
fn first_similar_takes_first_accepted() {
    let order = vec![7, 3, 1];
    assert_eq!(first_similar(&order, 6, &|l: usize, _c: usize| l < 5), Some(3));
    assert_eq!(first_similar(&order, 6, &|_l: usize, _c: usize| false), None);
}

#[test]
fn leaf_grouper_pairs() {
    let shard: Vec<usize> = (0..6).collect();
    let g = worker_group_accounts_bottommost(&shard, usize::MAX, &|l: usize, c: usize| l / 2 == c / 2);
    assert_eq!(view(&g), vec![(0, vec![0, 1]), (2, vec![2, 3]), (4, vec![4, 5])]);
}

#[test]
fn leaf_grouper_prefers_nearest_leader() {
    let shard: Vec<usize> = vec![0, 5, 4];
    let g = worker_group_accounts_bottommost(&shard, usize::MAX, &|l: usize, c: usize| c == 4 || l == c);
    assert_eq!(view(&g), vec![(0, vec![0]), (5, vec![5, 4])]);
    let g = worker_group_accounts_bottommost(&shard, usize::MAX, &|_l: usize, _c: usize| false);
    assert_eq!(g.groups.len(), 3);
}

#[test]
fn leaf_grouper_probe_limit() {
    let shard: Vec<usize> = vec![0, 10, 11];
    let sim = |l: usize, c: usize| l == 0 && c == 11;
    let g = worker_group_accounts_bottommost(&shard, usize::MAX, &sim);
    assert_eq!(view(&g), vec![(0, vec![0, 11]), (10, vec![10])]);
    let g = worker_group_accounts_bottommost(&shard, 1, &sim);
    assert_eq!(view(&g), vec![(0, vec![0]), (10, vec![10]), (11, vec![11])]);
}

#[test]
fn merge_joins_or_inserts() {
    let mut dst = map_of(&[(0, &[0, 1])]);
    let src = map_of(&[(2, &[2, 3])]);
    integrate_two_group_map(&mut dst, &src, &|_l: usize, _c: usize| true);
    assert_eq!(view(&dst), vec![(0, vec![0, 1, 2, 3])]);
    let mut dst = map_of(&[(0, &[0, 1])]);
    integrate_two_group_map(&mut dst, &src, &|_l: usize, _c: usize| false);
    assert_eq!(view(&dst), vec![(0, vec![0, 1]), (2, vec![2, 3])]);
}

#[test]
fn merge_uses_snapshot_leaders() {
    let mut dst = GroupMap::new();
    let src = map_of(&[(2, &[2]), (3, &[3])]);
    integrate_two_group_map(&mut dst, &src, &|_l: usize, _c: usize| true);
    assert_eq!(view(&dst), vec![(2, vec![2]), (3, vec![3])]);
}

#[test]
fn filter_drops_small_groups() {
    let mut m = map_of(&[(0, &[0, 1]), (2, &[2]), (3, &[3, 4, 5])]);
    filter_low_frequency_data(&mut m, 2);
    assert_eq!(view(&m), vec![(0, vec![0, 1]), (3, vec![3, 4, 5])]);
    filter_low_frequency_data(&mut m, 0);
    assert_eq!(m.groups.len(), 2);
    filter_low_frequency_data(&mut m, 4);
    assert!(m.groups.is_empty());
}

#[test]
fn shaping_orders_by_size_and_filters() {
    let names = vec!["a", "b", "c", "d"];
    let ana = CAccountNameAnaVec::new(&names);
    let m = map_of(&[(0, &[0]), (1, &[1, 2, 3])]);
    assert_eq!(ana.generate_group_map_by_index(&m, 1), vec![vec!["b", "c", "d"], vec!["a"]]);
    assert_eq!(ana.generate_group_map_by_index(&m, 2), vec![vec!["b", "c", "d"]]);
    assert!(ana.generate_group_map_by_index(&m, 4).is_empty());
    let tie = map_of(&[(0, &[0, 1]), (2, &[2, 3])]);
    assert_eq!(ana.generate_group_map_by_index(&tie, 0), vec![vec!["a", "b"], vec!["c", "d"]]);
}

#[test]
fn min_members_never_adds_groups() {
    let names = vec!["a", "b", "c", "d", "e", "f"];
    let ana = CAccountNameAnaVec::new(&names);
    let m = map_of(&[(0, &[0]), (1, &[1, 2]), (3, &[3, 4, 5])]);
    let mut last = usize::MAX;
    for t in 0..5 {
        let r = ana.generate_group_map_by_index(&m, t);
        assert!(r.len() <= last);
        last = r.len();
        let all = ana.generate_group_map_by_index(&m, 0);
        assert_eq!(r[..], all[..r.len()]);
    }
}

#[test]
fn plan_small_and_massive() {
    let p = grouping_plan(10, 3, EfficiencyMode::Normal, 10);
    assert_eq!(p, GroupingPlan { granularity: 400, shard_min_members: 4, filter_shards: true, probe_limit: usize::MAX });
    let p = grouping_plan(10, 3, EfficiencyMode::Accurately, 2);
    assert_eq!(p, GroupingPlan { granularity: 400, shard_min_members: 2, filter_shards: false, probe_limit: usize::MAX });
    let p = grouping_plan(9600, 3, EfficiencyMode::Rapidly, 10);
    assert_eq!(p, GroupingPlan { granularity: 6400, shard_min_members: 10, filter_shards: true, probe_limit: FAST_PROBE_LIMIT });
    let p = grouping_plan(9599, 3, EfficiencyMode::Quickly, 1);
    assert_eq!(p, GroupingPlan { granularity: 400, shard_min_members: 1, filter_shards: false, probe_limit: FAST_PROBE_LIMIT });
}

#[test]
fn dispatch_choice() {
    assert_eq!(dispatch_for(1, 3), Dispatch::Inline);
    assert_eq!(dispatch_for(0, 3), Dispatch::Inline);
    assert_eq!(dispatch_for(4, 3), Dispatch::Scoped);
    assert_eq!(dispatch_for(5, 3), Dispatch::Pool);
}

#[test]
fn default_mode_is_quick() {
    assert_eq!(EfficiencyMode::default(), EfficiencyMode::Quickly);
}

#[test]
fn absorb_filters_when_planned() {
    let plan = grouping_plan(10, 3, EfficiencyMode::Normal, 2);
    let mut result = map_of(&[(0, &[0, 1])]);
    let shard = map_of(&[(2, &[2]), (3, &[3, 4])]);
    absorb_shard_result(&mut result, shard, &plan, &|_l: usize, _c: usize| false);
    assert_eq!(view(&result), vec![(0, vec![0, 1]), (3, vec![3, 4])]);
    let plan = grouping_plan(10, 3, EfficiencyMode::Accurately, 2);
    let mut result = map_of(&[(0, &[0, 1])]);
    let shard = map_of(&[(2, &[2]), (3, &[3, 4])]);
    absorb_shard_result(&mut result, shard, &plan, &|_l: usize, _c: usize| false);
    assert_eq!(result.groups.len(), 3);
}

#[test]
fn single_name_scenario_groups_once() {
    let names = vec!["u0j2e9", "u0j2e9", "u0j2e9"];
    let ana = CAccountNameAnaVec::new(&names);
    let shard: Vec<usize> = (0..ana.len()).collect();
    let g = worker_group_accounts_bottommost(&shard, usize::MAX, &|_l: usize, _c: usize| true);
    assert_eq!(ana.generate_group_map_by_index(&g, 1), vec![vec!["u0j2e9"]]);
}

#[test]
fn leaf_grouper_keeps_shard_order() {
    let shard: Vec<usize> = vec![7, 3];
    let g = worker_group_accounts_bottommost(&shard, usize::MAX, &|l: usize, c: usize| l == 3 && c == 7);
    assert_eq!(view(&g), vec![(7, vec![7]), (3, vec![3])]);
}

#[test]
fn merge_appends_whole_group_in_order() {
    let mut dst = map_of(&[(0, &[0, 1]), (5, &[5])]);
    let src = map_of(&[(2, &[2, 9, 4]), (8, &[8])]);
    integrate_two_group_map(&mut dst, &src, &|l: usize, c: usize| l == 0 && c == 2);
    assert_eq!(view(&dst), vec![(0, vec![0, 1, 2, 9, 4]), (5, vec![5]), (8, vec![8])]);
    let before = view(&dst);
    integrate_two_group_map(&mut dst, &GroupMap::new(), &|_l: usize, _c: usize| true);
    assert_eq!(view(&dst), before);
}

#[test]
fn group_shards_places_every_index_once() {
    let shards = vec![vec![0, 1, 2], vec![3, 4], vec![5]];
    let plan = grouping_plan(6, 3, EfficiencyMode::Accurately, 1);
    let g = group_shards(&shards, &plan, &|l: usize, c: usize| l % 2 == c % 2);
    let mut all: Vec<usize> = g.groups.iter().flat_map(|x| x.members.clone()).collect();
    all.sort();
    assert_eq!(all, vec![0, 1, 2, 3, 4, 5]);
    assert_eq!(view(&g), vec![(0, vec![0, 2, 4]), (1, vec![1, 3, 5])]);
    let one = group_shards(&vec![vec![4, 6]], &grouping_plan(6, 3, EfficiencyMode::Normal, 9), &|_l: usize, _c: usize| false);
    assert_eq!(view(&one), vec![(4, vec![4]), (6, vec![6])]);
}
