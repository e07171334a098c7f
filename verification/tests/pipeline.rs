use sybil_analyzer::analysis::{analyze_gossip_files, Analysis};
use sybil_analyzer::history::{Observation, SnapshotFile};
use sybil_analyzer::registry::{
    build_staked_validators_map, total_lamports_to_sol, ActiveValidator, Registry, SolAmount,
};
use sybil_analyzer::report::sort_clusters_by_stake;

fn reference(stakes: &[(&str, Option<u64>)]) -> Vec<ActiveValidator> {
    stakes
        .iter()
        .map(|(identity, stake)| ActiveValidator {
            identity: identity.to_string(),
            vote_account: format!("vote-{}", identity),
            activated_stake: *stake,
        })
        .collect()
}

fn registry_from(stakes: &[(&str, Option<u64>)]) -> Registry {
    build_staked_validators_map(&reference(stakes), &Vec::new(), &Vec::new())
}

fn round(label: &str, nodes: &[(&str, &str)]) -> SnapshotFile {
    SnapshotFile {
        label: label.to_string(),
        observations: nodes
            .iter()
            .map(|(identity, address)| Observation {
                identity: identity.to_string(),
                address: Some(address.to_string()),
            })
            .collect(),
    }
}

fn two_rounds() -> Vec<SnapshotFile> {
    vec![
        round("round-1", &[("A", "1.1.1.1"), ("B", "2.2.2.2")]),
        round("round-2", &[("B", "1.1.1.1"), ("C", "2.2.2.2")]),
    ]
}

fn run(stakes: &[(&str, Option<u64>)], files: &Vec<SnapshotFile>) -> Analysis {
    analyze_gossip_files(files, registry_from(stakes))
}

#[test]
fn end_to_end_with_an_unstaked_identity() {
    let stakes = [("A", Some(100)), ("B", Some(50)), ("C", Some(0))];
    let analysis = run(&stakes, &two_rounds());

    assert_eq!(analysis.histories.len(), 2);
    assert_eq!(analysis.flagged_addresses, vec!["1.1.1.1", "2.2.2.2"]);

    assert_eq!(analysis.candidates.len(), 1);
    assert_eq!(analysis.candidates[0].address, "1.1.1.1");
    assert_eq!(analysis.candidates[0].staked_identities, vec!["A", "B"]);

    assert_eq!(analysis.clusters.len(), 1);
    assert_eq!(analysis.clusters[0].addresses, vec!["1.1.1.1"]);
    assert_eq!(analysis.clusters[0].staked_identities, vec!["A", "B"]);
    assert_eq!(analysis.clusters[0].total_stake_lamports, 150);
    assert_eq!(analysis.clusters[0].validators.len(), 2);
}

#[test]
fn end_to_end_in_whole_sol() {
    let stakes = [
        ("A", Some(100_000_000_000)),
        ("B", Some(50_000_000_000)),
        ("C", None),
    ];
    let analysis = run(&stakes, &two_rounds());
    assert_eq!(analysis.clusters.len(), 1);
    assert_eq!(analysis.clusters[0].total_stake_lamports, 150_000_000_000);
    assert_eq!(
        total_lamports_to_sol(analysis.clusters[0].total_stake_lamports),
        SolAmount { whole: 150, fraction_lamports: 0 }
    );
}

#[test]
fn end_to_end_with_all_three_staked() {
    let stakes = [("A", Some(100)), ("B", Some(50)), ("C", Some(10))];
    let analysis = run(&stakes, &two_rounds());
    assert_eq!(analysis.candidates.len(), 2);
    assert_eq!(analysis.clusters.len(), 1);
    assert_eq!(analysis.clusters[0].addresses, vec!["1.1.1.1", "2.2.2.2"]);
    assert_eq!(analysis.clusters[0].staked_identities, vec!["A", "B", "C"]);
    assert_eq!(analysis.clusters[0].total_stake_lamports, 160);
}

#[test]
fn unstaked_entries_reach_neither_registry_nor_clusters() {
    let stakes = [("A", Some(100)), ("B", Some(50)), ("C", Some(0)), ("D", None)];
    let files = vec![
        round("round-1", &[("A", "1.1.1.1"), ("C", "2.2.2.2"), ("D", "3.3.3.3")]),
        round("round-2", &[("B", "1.1.1.1"), ("D", "2.2.2.2"), ("C", "3.3.3.3")]),
        round("round-3", &[("C", "1.1.1.1"), ("A", "2.2.2.2"), ("B", "3.3.3.3")]),
    ];
    let analysis = run(&stakes, &files);
    for unstaked in ["C", "D"] {
        assert!(!analysis.registry.contains(&unstaked.to_string()));
        for cluster in &analysis.clusters {
            assert!(!cluster.staked_identities.contains(&unstaked.to_string()));
            assert!(cluster.validators.iter().all(|v| v.identity != unstaked));
        }
        for candidate in &analysis.candidates {
            assert!(!candidate.staked_identities.contains(&unstaked.to_string()));
        }
    }
    assert_eq!(analysis.candidates.len(), 1);
    assert_eq!(analysis.candidates[0].address, "1.1.1.1");
    for cluster in &analysis.clusters {
        assert!(cluster.validators.iter().all(|v| v.activated_stake_lamports >= 1));
    }
}

#[test]
fn same_inputs_give_the_same_analysis() {
    let stakes =
        [("A", Some(100)), ("B", Some(50)), ("C", Some(10)), ("D", Some(7)), ("E", Some(3))];
    let files = vec![
        round("r1", &[("A", "1.1.1.1"), ("B", "2.2.2.2"), ("D", "3.3.3.3"), ("Z", "4.4.4.4")]),
        round("r2", &[("B", "1.1.1.1"), ("C", "2.2.2.2"), ("E", "3.3.3.3"), ("Z", "4.4.4.4")]),
        round("r3", &[("A", "1.1.1.1"), ("C", "2.2.2.2"), ("D", "3.3.3.3"), ("Y", "4.4.4.4")]),
    ];
    let first = run(&stakes, &files);
    let second = run(&stakes, &files);
    assert_eq!(first, second);
    assert_eq!(first.clusters.len(), 2);
    assert_eq!(first.clusters[0].addresses, vec!["1.1.1.1", "2.2.2.2"]);
    assert_eq!(first.clusters[1].addresses, vec!["3.3.3.3"]);
    assert_eq!(
        sort_clusters_by_stake(first.clusters),
        sort_clusters_by_stake(second.clusters)
    );
}

#[test]
fn analysis_records_where_staked_identities_were_seen() {
    let stakes = [("A", Some(100)), ("B", Some(50))];
    let analysis = run(&stakes, &two_rounds());
    assert_eq!(analysis.registry.records[0].observed_addresses, vec!["1.1.1.1"]);
    assert_eq!(analysis.registry.records[1].observed_addresses, vec!["2.2.2.2", "1.1.1.1"]);
    let in_cluster = &analysis.clusters[0].validators[1];
    assert_eq!(in_cluster.identity, "B");
    assert_eq!(in_cluster.observed_addresses, vec!["2.2.2.2", "1.1.1.1"]);
}

#[test]
fn analysis_of_nothing_is_empty() {
    let analysis = analyze_gossip_files(&Vec::new(), Registry::new());
    assert!(analysis.histories.is_empty());
    assert!(analysis.flagged_addresses.is_empty());
    assert!(analysis.candidates.is_empty());
    assert!(analysis.clusters.is_empty());
    assert_eq!(analysis.registry.len(), 0);
}

#[test]
fn sharing_an_address_that_is_no_candidate_links_nothing() {
    let stakes = [("A", Some(1)), ("B", Some(2)), ("C", Some(4)), ("D", Some(8))];
    let files = vec![
        round("r1", &[("A", "1.1.1.1"), ("C", "2.2.2.2"), ("A", "9.9.9.9")]),
        round("r2", &[("B", "1.1.1.1"), ("D", "2.2.2.2"), ("X", "9.9.9.9")]),
        round("r3", &[("A", "1.1.1.1"), ("C", "2.2.2.2"), ("A", "9.9.9.9")]),
    ];
    let analysis = run(&stakes, &files);
    assert_eq!(analysis.flagged_addresses, vec!["1.1.1.1", "2.2.2.2", "9.9.9.9"]);
    assert_eq!(analysis.candidates.len(), 2);
    assert_eq!(analysis.clusters.len(), 2);
    assert_eq!(analysis.clusters[0].total_stake_lamports, 3);
    assert_eq!(analysis.clusters[1].total_stake_lamports, 12);
}
