//! The order in which clusters are reported: by stake, the largest first.
//! Clusters of equal stake keep the order in which they were found, so that
//! the same analysis is always reported in the same order.

use crate::cluster::{Cluster, ClusterView};
use crate::names::views;
use vstd::prelude::*;

verus! {

/// The number of clusters at the front of `sorted` whose stake is at least
/// `stake`.
pub open spec fn place_for(sorted: Seq<ClusterView>, stake: nat) -> int
    decreases sorted.len(),
{
    if sorted.len() == 0 || sorted.first().total_stake_lamports < stake {
        0
    } else {
        1 + place_for(sorted.drop_first(), stake)
    }
}

/// `sorted` with `cluster` put behind the clusters at the front whose stake
/// is at least its own.
pub open spec fn placed(sorted: Seq<ClusterView>, cluster: ClusterView) -> Seq<ClusterView> {
    sorted.insert(place_for(sorted, cluster.total_stake_lamports), cluster)
}

/// `clusters` by descending stake: each cluster, in order, is placed among
/// those before it.
pub open spec fn by_descending_stake(clusters: Seq<ClusterView>) -> Seq<ClusterView>
    decreases clusters.len(),
{
    if clusters.len() == 0 {
        Seq::empty()
    } else {
        placed(by_descending_stake(clusters.drop_last()), clusters.last())
    }
}

/// No cluster stands before one of greater stake.
pub open spec fn is_descending(clusters: Seq<ClusterView>) -> bool {
    forall|i: int, j: int|
        0 <= i < j < clusters.len() ==> (#[trigger] clusters[i]).total_stake_lamports >= (
        #[trigger] clusters[j]).total_stake_lamports
}

/// The place for a stake lies within the sequence; before it every cluster
/// has at least that stake, and the cluster at it, if there is one, has less.
pub proof fn lemma_place_for(sorted: Seq<ClusterView>, stake: nat)
    ensures
        0 <= place_for(sorted, stake) <= sorted.len(),
        forall|k: int|
            0 <= k < place_for(sorted, stake) ==> (#[trigger] sorted[k]).total_stake_lamports
                >= stake,
        place_for(sorted, stake) < sorted.len() ==> sorted[place_for(
            sorted,
            stake,
        )].total_stake_lamports < stake,
    decreases sorted.len(),
{
    if sorted.len() > 0 && sorted.first().total_stake_lamports >= stake {
        let rest = sorted.drop_first();
        lemma_place_for(rest, stake);
        assert forall|k: int| 0 <= k < place_for(sorted, stake) implies (
        #[trigger] sorted[k]).total_stake_lamports >= stake by {
            if k > 0 {
                assert(sorted[k] == rest[k - 1]);
            }
        }
        if place_for(sorted, stake) < sorted.len() {
            assert(sorted[place_for(sorted, stake)] == rest[place_for(rest, stake)]);
        }
    }
}

/// The place for a stake after `p` clusters of at least that stake is `p`
/// more than the place among the clusters behind them.
pub proof fn lemma_place_for_skip(sorted: Seq<ClusterView>, stake: nat, p: int)
    requires
        0 <= p <= sorted.len(),
        forall|k: int| 0 <= k < p ==> (#[trigger] sorted[k]).total_stake_lamports >= stake,
    ensures
        place_for(sorted, stake) == p + place_for(sorted.skip(p), stake),
    decreases p,
{
    if p == 0 {
        assert(sorted.skip(0) =~= sorted);
    } else {
        let rest = sorted.drop_first();
        assert forall|k: int| 0 <= k < p - 1 implies (#[trigger] rest[k]).total_stake_lamports
            >= stake by {
            assert(rest[k] == sorted[k + 1]);
        }
        lemma_place_for_skip(rest, stake, p - 1);
        assert(rest.skip(p - 1) =~= sorted.skip(p));
        assert(sorted.first() == sorted[0]);
    }
}

/// Sorting by descending stake gives the same clusters, as many of each, with
/// no cluster before one of greater stake.
pub proof fn lemma_by_descending_stake(clusters: Seq<ClusterView>)
    ensures
        by_descending_stake(clusters).len() == clusters.len(),
        by_descending_stake(clusters).to_multiset() == clusters.to_multiset(),
        is_descending(by_descending_stake(clusters)),
    decreases clusters.len(),
{
    broadcast use vstd::seq_lib::group_to_multiset_ensures;

    if clusters.len() > 0 {
        let init = clusters.drop_last();
        let last = clusters.last();
        let earlier = by_descending_stake(init);
        let all = by_descending_stake(clusters);
        let p = place_for(earlier, last.total_stake_lamports);
        lemma_by_descending_stake(init);
        lemma_place_for(earlier, last.total_stake_lamports);
        assert(all.remove(p) =~= earlier);
        assert(all[p] == last);
        assert(earlier.to_multiset() == all.to_multiset().remove(last));
        assert(all.to_multiset() =~= earlier.to_multiset().insert(last));
        assert(init.push(last) =~= clusters);
        assert(clusters.to_multiset() =~= init.to_multiset().insert(last));
        assert forall|i: int, j: int| 0 <= i < j < all.len() implies (
        #[trigger] all[i]).total_stake_lamports >= (#[trigger] all[j]).total_stake_lamports by {
            if j < p {
                assert(all[i] == earlier[i] && all[j] == earlier[j]);
            } else if j == p {
                assert(all[i] == earlier[i]);
            } else if i < p {
                assert(all[i] == earlier[i] && all[j] == earlier[j - 1]);
                assert(earlier[i].total_stake_lamports >= earlier[p].total_stake_lamports);
            } else if i == p {
                assert(all[j] == earlier[j - 1]);
                assert(earlier[p].total_stake_lamports >= earlier[j - 1].total_stake_lamports);
            } else {
                assert(all[i] == earlier[i - 1] && all[j] == earlier[j - 1]);
            }
        }
    }
}

/// Clusters that are in descending order stay as they are: among clusters of
/// equal stake the order is kept.
pub proof fn lemma_descending_fixed(clusters: Seq<ClusterView>)
    requires
        is_descending(clusters),
    ensures
        by_descending_stake(clusters) == clusters,
    decreases clusters.len(),
{
    if clusters.len() > 0 {
        let init = clusters.drop_last();
        let last = clusters.last();
        assert(is_descending(init)) by {
            assert forall|i: int, j: int| 0 <= i < j < init.len() implies (
            #[trigger] init[i]).total_stake_lamports >= (
            #[trigger] init[j]).total_stake_lamports by {
                assert(init[i] == clusters[i] && init[j] == clusters[j]);
            }
        }
        lemma_descending_fixed(init);
        assert forall|k: int| 0 <= k < init.len() implies (#[trigger] init[k]).total_stake_lamports
            >= last.total_stake_lamports by {
            assert(init[k] == clusters[k]);
            assert(clusters[clusters.len() - 1] == last);
        }
        lemma_place_for_skip(init, last.total_stake_lamports, init.len() as int);
        assert(init.skip(init.len() as int) =~= Seq::empty());
        assert(init.insert(init.len() as int, last) =~= clusters);
    } else {
        assert(clusters =~= Seq::empty());
    }
}

/// Orders clusters for the report: by stake, the largest first, clusters of
/// equal stake in the order given.
pub fn sort_clusters_by_stake(clusters: Vec<Cluster>) -> (sorted: Vec<Cluster>)
    ensures
        views(sorted@) == by_descending_stake(views(clusters@)),
{
    let ghost given = views(clusters@);
    let mut rest = clusters;
    let mut sorted: Vec<Cluster> = Vec::new();
    let ghost mut done: int = 0;
    proof {
        assert(given.skip(0) =~= given);
        assert(given.take(0) =~= Seq::empty());
        assert(views(sorted@) =~= Seq::empty());
    }
    while rest.len() > 0
        invariant
            0 <= done <= given.len(),
            views(rest@) == given.skip(done),
            views(sorted@) == by_descending_stake(given.take(done)),
        decreases rest.len(),
    {
        let ghost rest_before = views(rest@);
        let ghost sorted_before = views(sorted@);
        let cluster = rest.remove(0);
        let ghost stake = cluster@.total_stake_lamports;
        proof {
            assert(rest_before.len() == given.len() - done);
            assert(cluster@ == rest_before[0]);
            assert(cluster@ == given[done]);
            assert(views(rest@) =~= rest_before.remove(0));
            assert(rest_before.remove(0) =~= given.skip(done + 1));
            assert(given.take(done + 1).drop_last() =~= given.take(done));
        }
        let mut p: usize = 0;
        while p < sorted.len() && sorted[p].total_stake_lamports >= cluster.total_stake_lamports
            invariant
                p <= sorted.len(),
                sorted_before == views(sorted@),
                stake == cluster@.total_stake_lamports,
                forall|k: int|
                    0 <= k < p ==> (#[trigger] sorted_before[k]).total_stake_lamports >= stake,
            decreases sorted.len() - p,
        {
            p += 1;
        }
        proof {
            lemma_place_for_skip(sorted_before, stake, p as int);
            if p < sorted.len() {
                assert(sorted_before.skip(p as int).first() == sorted_before[p as int]);
            }
        }
        sorted.insert(p, cluster);
        proof {
            assert(views(sorted@) =~= sorted_before.insert(p as int, cluster@));
            done = done + 1;
        }
    }
    proof {
        assert(given.take(given.len() as int) =~= given);
    }
    sorted
}

} // verus!
