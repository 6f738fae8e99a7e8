use tsxlib::algo::int_utils::{merge_asof_fwd, merge_asof_prior, AsofComparator};
use tsxlib::index::HashableIndex;
use tsxlib::joins::{fwd_func, prior_func, IndexJoinPair, IndexJoinPotentiallyUnmatchedPair, JoinEngine};
use tsxlib::timeseries::MergeAsofMode;
use std::cmp::Ordering;

fn pairs(v: &[(usize, usize)]) -> Vec<IndexJoinPair> {
    v.iter().map(|(a, b)| IndexJoinPair { this_idx: *a, other_idx: *b }).collect()
}

fn lpairs(v: &[(usize, Option<usize>)]) -> Vec<IndexJoinPotentiallyUnmatchedPair> {
    v.iter().map(|(a, b)| IndexJoinPotentiallyUnmatchedPair { this_idx: *a, other_idx: *b }).collect()
}

#[test]
fn roll_targets_saturate() {
    assert_eq!(prior_func(0), 0);
    assert_eq!(prior_func(5), 4);
    assert_eq!(fwd_func(0, 3), 1);
    assert_eq!(fwd_func(2, 3), 2);
    assert_eq!(fwd_func(9, 3), 2);
}

#[test]
fn inner_merge_join_pairs_equal_keys() {
    let a = HashableIndex::new(vec![1, 3, 5, 7]);
    let b = HashableIndex::new(vec![0, 3, 4, 7, 9]);
    let je = JoinEngine::new(&a, &b);
    assert_eq!(je.get_inner_merge_joined_indicies(), pairs(&[(1, 1), (3, 3)]));
}

#[test]
fn left_merge_join_keeps_every_left_position() {
    let a = HashableIndex::new(vec![1, 3, 5, 7]);
    let b = HashableIndex::new(vec![0, 3, 4]);
    let je = JoinEngine::new(&a, &b);
    assert_eq!(
        je.get_left_merge_joined_indicies(),
        lpairs(&[(0, None), (1, Some(1)), (2, None), (3, None)])
    );
}

#[test]
fn inner_hash_join_probes_longer_side() {
    let a = HashableIndex::new(vec![1, 3, 5]);
    let b = HashableIndex::new(vec![7, 5, 0, 1]);
    let je = JoinEngine::new(&a, &b);
    assert_eq!(je.get_inner_hash_joined_indicies(), pairs(&[(2, 1), (0, 3)]));
    let je2 = JoinEngine::new(&b, &a);
    assert_eq!(je2.get_inner_hash_joined_indicies(), pairs(&[(1, 2), (3, 0)]));
}

#[test]
fn left_hash_join_matches_by_key() {
    let a = HashableIndex::new(vec![1, 3, 5]);
    let b = HashableIndex::new(vec![5, 1]);
    let je = JoinEngine::new(&a, &b);
    assert_eq!(
        je.get_left_hash_joined_indicies(),
        lpairs(&[(0, Some(1)), (1, None), (2, Some(0))])
    );
}

#[test]
fn hash_precompare_takes_identity_only_for_same_keys() {
    let a = HashableIndex::new(vec![1, 2, 3]);
    let same = HashableIndex::new(vec![1, 2, 3]);
    let shifted = HashableIndex::new(vec![2, 3, 4]);
    let mut je = JoinEngine::new(&a, &same);
    je.hash_precompare = true;
    assert_eq!(je.get_inner_merge_joined_indicies(), pairs(&[(0, 0), (1, 1), (2, 2)]));
    let mut je2 = JoinEngine::new(&a, &shifted);
    je2.hash_precompare = true;
    assert_eq!(je2.get_inner_merge_joined_indicies(), pairs(&[(1, 0), (2, 1)]));
    assert_eq!(
        je2.get_left_merge_joined_indicies(),
        lpairs(&[(0, None), (1, Some(0)), (2, Some(1))])
    );
}

#[test]
fn comparators_follow_their_rules() {
    let prior = merge_asof_prior(1);
    assert_eq!(prior, AsofComparator::Prior { look_back: 1 });
    assert_eq!(prior.compare(3, Some(4), 2), (Ordering::Equal, -1));
    assert_eq!(prior.compare(4, Some(4), 2), (Ordering::Equal, 0));
    assert_eq!(prior.compare(1, Some(2), 2), (Ordering::Less, 0));
    assert_eq!(prior.compare(9, Some(12), 2), (Ordering::Less, 0));
    assert_eq!(prior.compare(9, Some(5), 2), (Ordering::Greater, 0));
    assert_eq!(prior.compare(5, None, 4), (Ordering::Equal, -1));
    assert_eq!(prior.compare(5, None, 3), (Ordering::Less, 0));
    let fwd = merge_asof_fwd(1);
    assert_eq!(fwd.compare(1, Some(2), 5), (Ordering::Equal, 0));
    assert_eq!(fwd.compare(3, Some(5), 6), (Ordering::Less, 0));
    assert_eq!(fwd.compare(7, Some(2), 5), (Ordering::Greater, 0));
    assert_eq!(fwd.compare(3, Some(2), 4), (Ordering::Equal, 1));
    // the following key lies outside the look-ahead: move on, take nothing
    assert_eq!(fwd.compare(3, Some(2), 5), (Ordering::Greater, 0));
    assert_eq!(fwd.compare(3, None, 2), (Ordering::Less, 0));
}

#[test]
fn roll_following_ignores_keys_beyond_look_ahead() {
    let a = HashableIndex::new(vec![3]);
    let b = HashableIndex::new(vec![2, 5]);
    let je = JoinEngine::new(&a, &b);
    assert_eq!(
        je.get_asof_merge_joined_indicies(Some(merge_asof_fwd(1)), MergeAsofMode::RollFollowing),
        lpairs(&[(0, None)])
    );
}

#[test]
fn roll_prior_matches_first_position() {
    let a = HashableIndex::new(vec![3]);
    let b = HashableIndex::new(vec![2, 4]);
    let je = JoinEngine::new(&a, &b);
    assert_eq!(
        je.get_asof_merge_joined_indicies(Some(merge_asof_prior(1)), MergeAsofMode::RollPrior),
        lpairs(&[(0, Some(0))])
    );
}

#[test]
fn roll_prior_matches_after_other_is_used_up() {
    let a = HashableIndex::new(vec![5, 9]);
    let b = HashableIndex::new(vec![3, 4]);
    let je = JoinEngine::new(&a, &b);
    assert_eq!(
        je.get_asof_merge_joined_indicies(Some(merge_asof_prior(1)), MergeAsofMode::RollPrior),
        lpairs(&[(0, Some(1)), (1, None)])
    );
}

#[test]
fn asof_greater_advances_other_side() {
    // keys of `this` far past the first keys of `other`
    let a = HashableIndex::new(vec![10, 11]);
    let b = HashableIndex::new(vec![1, 2, 10]);
    let je = JoinEngine::new(&a, &b);
    assert_eq!(
        je.get_asof_merge_joined_indicies(None, MergeAsofMode::NoRoll),
        lpairs(&[(0, Some(2)), (1, None)])
    );
    assert_eq!(
        je.get_asof_merge_joined_indicies(Some(merge_asof_prior(1)), MergeAsofMode::RollPrior),
        lpairs(&[(0, Some(2)), (1, Some(2))])
    );
}

#[test]
fn asof_without_comparator_is_left_join() {
    let a = HashableIndex::new(vec![1, 3, 5, 7]);
    let b = HashableIndex::new(vec![0, 3, 4, 7]);
    let je = JoinEngine::new(&a, &b);
    let left = je.get_left_merge_joined_indicies();
    assert_eq!(left, lpairs(&[(0, None), (1, Some(1)), (2, None), (3, Some(3))]));
    assert_eq!(je.get_asof_merge_joined_indicies(None, MergeAsofMode::NoRoll), left);
    assert_eq!(je.get_asof_merge_joined_indicies(None, MergeAsofMode::RollPrior), left);
    assert_eq!(je.get_asof_merge_joined_indicies(None, MergeAsofMode::RollFollowing), left);
}
