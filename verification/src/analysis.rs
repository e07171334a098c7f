//! The whole analysis, from snapshots and registry to clusters.

use crate::candidate::{
    candidate_of, candidate_within, candidates_of, filter_candidates, is_candidate,
    is_candidate_from, lemma_candidate_addresses_distinct, lemma_candidate_of,
    lemma_candidate_threshold, Candidate, CandidateView,
};
use crate::cluster::{
    cluster_candidates, clusters_of, is_member, lemma_clusters_partition, lemma_merged_below,
    record_below, staked_below, validator_below, Cluster, ClusterView,
};
use crate::component::component_of;
use crate::history::{
    all_events, build_address_histories, flagged_addresses, flagged_addresses_of, histories_of,
    lemma_histories_of, lemma_observe_events_keeps, observe_events, record_observed_addresses,
    AddressHistory, AddressHistoryView, SnapshotFile, SnapshotFileView,
};
use crate::names::views;
use crate::registry::{
    has_staked_entry, identities, is_staked, lemma_registry_contents, registry_of, registry_wf,
    ActiveValidatorView, DelegationEntryView, MevPoolEntryView, Registry, ValidatorRecordView,
};
use vstd::prelude::*;

verus! {

/// What the analysis of a run of snapshots gives.
#[derive(Debug, PartialEq, Eq)]
pub struct Analysis {
    /// The registry, with the addresses at which each identity was seen.
    pub registry: Registry,
    /// The history of every address, in the order in which the addresses
    /// were first seen.
    pub histories: Vec<AddressHistory>,
    /// The addresses whose identity changed at least once.
    pub flagged_addresses: Vec<String>,
    /// The candidate addresses, in the order of the histories.
    pub candidates: Vec<Candidate>,
    /// One cluster for each connected component of the candidates, in the
    /// order of each cluster's first candidate.
    pub clusters: Vec<Cluster>,
}

/// An analysis, as contracts see it.
pub struct AnalysisView {
    pub registry: Seq<ValidatorRecordView>,
    pub histories: Seq<AddressHistoryView>,
    pub flagged_addresses: Seq<Seq<char>>,
    pub candidates: Seq<CandidateView>,
    pub clusters: Seq<ClusterView>,
}

impl View for Analysis {
    type V = AnalysisView;

    open spec fn view(&self) -> AnalysisView {
        AnalysisView {
            registry: self.registry@,
            histories: views(self.histories@),
            flagged_addresses: views(self.flagged_addresses@),
            candidates: views(self.candidates@),
            clusters: views(self.clusters@),
        }
    }
}

/// The analysis of `files`, taken in their order, against `records`.
pub open spec fn analysis_of(
    files: Seq<SnapshotFileView>,
    records: Seq<ValidatorRecordView>,
) -> AnalysisView {
    let events = all_events(files);
    let registry = observe_events(records, events);
    let histories = histories_of(events, registry);
    let candidates = candidates_of(histories, registry);
    AnalysisView {
        registry,
        histories,
        flagged_addresses: flagged_addresses_of(histories),
        candidates,
        clusters: clusters_of(candidates),
    }
}

/// Analyses a run of snapshots against the registry: notes where each staked
/// identity was seen, builds the address histories, keeps the candidate
/// addresses and merges them into clusters.
///
/// The snapshots are taken in the order given. The result depends on nothing
/// but the arguments: the same snapshots in the same order with the same
/// registry give the same analysis, down to the order of every list.
pub fn analyze_gossip_files(files: &Vec<SnapshotFile>, registry: Registry) -> (analysis: Analysis)
    ensures
        analysis@ == analysis_of(views(files@), registry@),
{
    let registry = record_observed_addresses(files, registry);
    let histories = build_address_histories(files, &registry);
    let flagged = flagged_addresses(&histories);
    let candidates = filter_candidates(&histories, &registry);
    let clusters = cluster_candidates(&candidates);
    Analysis { registry, histories, flagged_addresses: flagged, candidates, clusters }
}

/// `identity` occurs neither among the staked identities nor among the
/// validators of any candidate or cluster of `analysis`, and the registry of
/// `analysis` holds no record of it.
pub open spec fn is_absent(analysis: AnalysisView, identity: Seq<char>) -> bool {
    &&& !is_staked(analysis.registry, identity)
    &&& forall|m: int|
        0 <= m < analysis.candidates.len() ==> !(
        #[trigger] analysis.candidates[m]).staked_identities.contains(identity) && !identities(
            analysis.candidates[m].validators,
        ).contains(identity)
    &&& forall|c: int|
        0 <= c < analysis.clusters.len() ==> !(
        #[trigger] analysis.clusters[c]).staked_identities.contains(identity) && !identities(
            analysis.clusters[c].validators,
        ).contains(identity)
}

/// The candidates of an analysis are consistent with its registry and have
/// two staked identities or more each.
pub proof fn lemma_candidates_consistent(
    files: Seq<SnapshotFileView>,
    records: Seq<ValidatorRecordView>,
)
    ensures
        forall|m: int|
            0 <= m < analysis_of(files, records).candidates.len() ==> candidate_within(
                #[trigger] analysis_of(files, records).candidates[m],
                analysis_of(files, records).registry,
            ) && analysis_of(files, records).candidates[m].staked_identities.len() >= 2,
{
    let analysis = analysis_of(files, records);
    let events = all_events(files);
    lemma_histories_of(events, analysis.registry);
    lemma_candidate_threshold(analysis.histories, analysis.registry);
    assert forall|m: int| 0 <= m < analysis.candidates.len() implies candidate_within(
        #[trigger] analysis.candidates[m],
        analysis.registry,
    ) && analysis.candidates[m].staked_identities.len() >= 2 by {
        assert(is_candidate_from(analysis.candidates[m], analysis.histories, analysis.registry));
        let k = choose|k: int|
            0 <= k < analysis.histories.len() && is_candidate(#[trigger] analysis.histories[k])
                && analysis.candidates[m] == candidate_of(analysis.histories[k], analysis.registry);
        lemma_candidate_of(analysis.histories[k], analysis.registry);
    }
}

/// An identity without a staked entry in the active-validator list, be it
/// that its entries give no stake or a stake of zero, reaches nothing: the
/// registry holds no record of it, and no candidate and no cluster names it
/// as staked or carries a record of it.
pub proof fn lemma_unstaked_excluded(
    active: Seq<ActiveValidatorView>,
    pool: Seq<MevPoolEntryView>,
    delegation: Seq<DelegationEntryView>,
    files: Seq<SnapshotFileView>,
    identity: Seq<char>,
)
    requires
        !has_staked_entry(active, identity),
    ensures
        !is_staked(registry_of(active, pool, delegation), identity),
        is_absent(analysis_of(files, registry_of(active, pool, delegation)), identity),
{
    let records = registry_of(active, pool, delegation);
    lemma_registry_contents(active, pool, delegation);
    lemma_absent_without_record(files, records, identity);
}

/// An identity of which the registry holds no record occurs in no candidate
/// and in no cluster, neither as a staked identity nor with a record.
pub proof fn lemma_absent_without_record(
    files: Seq<SnapshotFileView>,
    records: Seq<ValidatorRecordView>,
    identity: Seq<char>,
)
    requires
        !is_staked(records, identity),
    ensures
        is_absent(analysis_of(files, records), identity),
{
    let analysis = analysis_of(files, records);
    let events = all_events(files);
    lemma_observe_events_keeps(records, events);
    lemma_candidates_consistent(files, records);
    assert forall|m: int| 0 <= m < analysis.candidates.len() implies !(
    #[trigger] analysis.candidates[m]).staked_identities.contains(identity) && !identities(
        analysis.candidates[m].validators,
    ).contains(identity) by {
        let staked = analysis.candidates[m].staked_identities;
        assert(candidate_within(analysis.candidates[m], analysis.registry));
        if staked.contains(identity) {
            let i = staked.index_of(identity);
            assert(is_staked(analysis.registry, staked[i]));
        }
    }
    assert forall|c: int| 0 <= c < analysis.clusters.len() implies !(
    #[trigger] analysis.clusters[c]).staked_identities.contains(identity) && !identities(
        analysis.clusters[c].validators,
    ).contains(identity) by {
        let n = analysis.candidates.len() as int;
        lemma_merged_below(analysis.candidates, c as nat, n);
        if staked_below(analysis.candidates, c as nat, n, identity) {
            let i = choose|i: int|
                0 <= i < n && #[trigger] is_member(analysis.candidates, c as nat, i)
                    && analysis.candidates[i].staked_identities.contains(identity);
            assert(!analysis.candidates[i].staked_identities.contains(identity));
        }
        if validator_below(analysis.candidates, c as nat, n, identity) {
            let i = choose|i: int|
                0 <= i < n && #[trigger] is_member(analysis.candidates, c as nat, i) && identities(
                    analysis.candidates[i].validators,
                ).contains(identity);
            assert(!identities(analysis.candidates[i].validators).contains(identity));
        }
    }
}

/// The clusters of an analysis partition its candidate addresses: the address
/// of every candidate is in the cluster of the candidate's component and in
/// no other cluster.
pub proof fn lemma_analysis_partition(
    files: Seq<SnapshotFileView>,
    records: Seq<ValidatorRecordView>,
    i: int,
    c: int,
)
    requires
        0 <= i < analysis_of(files, records).candidates.len(),
        0 <= c < analysis_of(files, records).clusters.len(),
    ensures
        component_of(analysis_of(files, records).candidates, i) < analysis_of(
            files,
            records,
        ).clusters.len(),
        analysis_of(files, records).clusters[c].addresses.contains(
            analysis_of(files, records).candidates[i].address,
        ) <==> c == component_of(analysis_of(files, records).candidates, i),
{
    let analysis = analysis_of(files, records);
    lemma_histories_of(all_events(files), analysis.registry);
    lemma_candidate_addresses_distinct(analysis.histories, analysis.registry);
    lemma_clusters_partition(analysis.candidates, i, c as nat);
}

/// In the analysis against a well-formed registry every record of a cluster
/// is a record of the registry, with a positive stake, and a cluster carries
/// a record of exactly the identities it names as staked.
pub proof fn lemma_cluster_validators(
    files: Seq<SnapshotFileView>,
    records: Seq<ValidatorRecordView>,
    c: int,
)
    requires
        registry_wf(records),
        0 <= c < analysis_of(files, records).clusters.len(),
    ensures
        forall|k: int|
            0 <= k < analysis_of(files, records).clusters[c].validators.len() ==> analysis_of(
                files,
                records,
            ).registry.contains(#[trigger] analysis_of(files, records).clusters[c].validators[k])
                && analysis_of(
                files,
                records,
            ).clusters[c].validators[k].activated_stake_lamports >= 1,
        forall|identity: Seq<char>|
            identities(analysis_of(files, records).clusters[c].validators).contains(identity)
                <==> analysis_of(files, records).clusters[c].staked_identities.contains(identity),
{
    let analysis = analysis_of(files, records);
    let cluster = analysis.clusters[c];
    let n = analysis.candidates.len() as int;
    lemma_observe_events_keeps(records, all_events(files));
    lemma_candidates_consistent(files, records);
    lemma_merged_below(analysis.candidates, c as nat, n);
    assert forall|k: int| 0 <= k < cluster.validators.len() implies analysis.registry.contains(
        #[trigger] cluster.validators[k],
    ) && cluster.validators[k].activated_stake_lamports >= 1 by {
        let record = cluster.validators[k];
        assert(record_below(analysis.candidates, c as nat, n, record));
        let i = choose|i: int|
            0 <= i < n && #[trigger] is_member(analysis.candidates, c as nat, i)
                && analysis.candidates[i].validators.contains(record);
        assert(candidate_within(analysis.candidates[i], analysis.registry));
        let m = analysis.candidates[i].validators.index_of(record);
        assert(analysis.registry.contains(analysis.candidates[i].validators[m]));
        let at = analysis.registry.index_of(record);
        assert(analysis.registry[at].activated_stake_lamports >= 1);
    }
    assert forall|identity: Seq<char>|
        identities(cluster.validators).contains(identity) <==> cluster.staked_identities.contains(
            identity,
        ) by {
        if validator_below(analysis.candidates, c as nat, n, identity) {
            let i = choose|i: int|
                0 <= i < n && #[trigger] is_member(analysis.candidates, c as nat, i) && identities(
                    analysis.candidates[i].validators,
                ).contains(identity);
            assert(candidate_within(analysis.candidates[i], analysis.registry));
            assert(staked_below(analysis.candidates, c as nat, n, identity));
        }
        if staked_below(analysis.candidates, c as nat, n, identity) {
            let i = choose|i: int|
                0 <= i < n && #[trigger] is_member(analysis.candidates, c as nat, i)
                    && analysis.candidates[i].staked_identities.contains(identity);
            assert(candidate_within(analysis.candidates[i], analysis.registry));
            assert(validator_below(analysis.candidates, c as nat, n, identity));
        }
    }
}

} // verus!
