use sybil_analyzer::history::{
    build_address_histories, compress_sightings, find_history, flagged_addresses,
    record_event, record_observed_addresses, AddressHistory, Observation, Sighting, SnapshotFile,
};
use sybil_analyzer::registry::{build_staked_validators_map, ActiveValidator, Registry};

fn seen(identity: &str, label: &str) -> Sighting {
    Sighting {
        identity: identity.to_string(),
        is_staked: false,
        snapshot_label: label.to_string(),
    }
}

fn file(label: &str, nodes: &[(&str, Option<&str>)]) -> SnapshotFile {
    SnapshotFile {
        label: label.to_string(),
        observations: nodes
            .iter()
            .map(|(identity, address)| Observation {
                identity: identity.to_string(),
                address: address.map(|a| a.to_string()),
            })
            .collect(),
    }
}

fn staked_registry(identities: &[&str]) -> Registry {
    let list: Vec<ActiveValidator> = identities
        .iter()
        .map(|identity| ActiveValidator {
            identity: identity.to_string(),
            vote_account: format!("vote-{}", identity),
            activated_stake: Some(1),
        })
        .collect();
    build_staked_validators_map(&list, &Vec::new(), &Vec::new())
}

fn identities_of(entries: &[Sighting]) -> Vec<String> {
    entries.iter().map(|s| s.identity.clone()).collect()
}

#[test]
fn compress_collapses_runs() {
    let raw = vec![
        seen("A", "s1"),
        seen("A", "s2"),
        seen("B", "s3"),
        seen("B", "s4"),
        seen("A", "s5"),
    ];
    let compressed = compress_sightings(&raw);
    assert_eq!(identities_of(&compressed), vec!["A", "B", "A"]);
    let labels: Vec<&str> = compressed.iter().map(|s| s.snapshot_label.as_str()).collect();
    assert_eq!(labels, vec!["s1", "s3", "s5"]);
}

#[test]
fn compress_is_idempotent() {
    let raw = vec![
        seen("A", "s1"),
        seen("A", "s2"),
        seen("B", "s3"),
        seen("C", "s4"),
        seen("C", "s5"),
        seen("C", "s6"),
        seen("A", "s7"),
    ];
    let once = compress_sightings(&raw);
    let twice = compress_sightings(&once);
    assert_eq!(identities_of(&once), vec!["A", "B", "C", "A"]);
    assert_eq!(once, twice);
}

#[test]
fn compress_of_nothing_and_of_one() {
    assert!(compress_sightings(&Vec::new()).is_empty());
    let one = vec![seen("A", "s1")];
    assert_eq!(compress_sightings(&one), one);
}

#[test]
fn history_of_five_snapshots_is_compressed_and_flagged() {
    let files = vec![
        file("s1", &[("A", Some("1.1.1.1"))]),
        file("s2", &[("A", Some("1.1.1.1"))]),
        file("s3", &[("B", Some("1.1.1.1"))]),
        file("s4", &[("B", Some("1.1.1.1"))]),
        file("s5", &[("A", Some("1.1.1.1"))]),
    ];
    let histories = build_address_histories(&files, &Registry::new());
    assert_eq!(histories.len(), 1);
    assert_eq!(histories[0].address, "1.1.1.1");
    assert_eq!(identities_of(&histories[0].entries), vec!["A", "B", "A"]);
    assert_eq!(histories[0].entries.len(), 3);
    assert!(histories[0].flagged);
    let labels: Vec<&str> =
        histories[0].entries.iter().map(|s| s.snapshot_label.as_str()).collect();
    assert_eq!(labels, vec!["s1", "s3", "s5"]);
}

#[test]
fn address_with_one_identity_is_not_flagged() {
    let files = vec![
        file("s1", &[("A", Some("1.1.1.1"))]),
        file("s2", &[("A", Some("1.1.1.1"))]),
    ];
    let histories = build_address_histories(&files, &Registry::new());
    assert_eq!(histories.len(), 1);
    assert_eq!(histories[0].entries.len(), 1);
    assert!(!histories[0].flagged);
    assert!(flagged_addresses(&histories).is_empty());
}

#[test]
fn compression_runs_across_files_and_within_a_file() {
    let files = vec![
        file("s1", &[("A", Some("1.1.1.1")), ("B", Some("1.1.1.1")), ("B", Some("1.1.1.1"))]),
        file("s2", &[("B", Some("1.1.1.1")), ("A", Some("1.1.1.1"))]),
    ];
    let histories = build_address_histories(&files, &Registry::new());
    assert_eq!(identities_of(&histories[0].entries), vec!["A", "B", "A"]);
    let labels: Vec<&str> =
        histories[0].entries.iter().map(|s| s.snapshot_label.as_str()).collect();
    assert_eq!(labels, vec!["s1", "s1", "s2"]);
}

#[test]
fn order_of_snapshots_decides_what_is_flagged() {
    let ordered = vec![
        file("s1", &[("A", Some("1.1.1.1"))]),
        file("s2", &[("A", Some("1.1.1.1"))]),
        file("s3", &[("B", Some("1.1.1.1"))]),
    ];
    let shuffled = vec![
        file("s1", &[("A", Some("1.1.1.1"))]),
        file("s3", &[("B", Some("1.1.1.1"))]),
        file("s2", &[("A", Some("1.1.1.1"))]),
    ];
    let first = build_address_histories(&ordered, &Registry::new());
    let second = build_address_histories(&shuffled, &Registry::new());
    assert_eq!(identities_of(&first[0].entries), vec!["A", "B"]);
    assert_eq!(identities_of(&second[0].entries), vec!["A", "B", "A"]);
}

#[test]
fn observations_without_usable_address_are_passed_over() {
    let files = vec![file(
        "s1",
        &[("A", None), ("B", Some("")), ("C", Some("3.3.3.3")), ("D", None)],
    )];
    let histories = build_address_histories(&files, &Registry::new());
    assert_eq!(histories.len(), 1);
    assert_eq!(histories[0].address, "3.3.3.3");
    assert_eq!(identities_of(&histories[0].entries), vec!["C"]);
}

#[test]
fn histories_stand_in_order_of_first_sighting() {
    let files = vec![
        file("s1", &[("A", Some("2.2.2.2")), ("B", Some("1.1.1.1"))]),
        file("s2", &[("C", Some("3.3.3.3")), ("D", Some("1.1.1.1")), ("E", Some("2.2.2.2"))]),
    ];
    let histories = build_address_histories(&files, &Registry::new());
    let addresses: Vec<&str> = histories.iter().map(|h| h.address.as_str()).collect();
    assert_eq!(addresses, vec!["2.2.2.2", "1.1.1.1", "3.3.3.3"]);
    assert_eq!(flagged_addresses(&histories), vec!["2.2.2.2", "1.1.1.1"]);
    assert_eq!(find_history(&histories, &"1.1.1.1".to_string()), Some(1));
    assert_eq!(find_history(&histories, &"9.9.9.9".to_string()), None);
}

#[test]
fn sightings_are_tagged_by_the_registry() {
    let registry = staked_registry(&["A", "C"]);
    let files = vec![
        file("s1", &[("A", Some("1.1.1.1"))]),
        file("s2", &[("B", Some("1.1.1.1"))]),
        file("s3", &[("C", Some("1.1.1.1"))]),
    ];
    let histories = build_address_histories(&files, &registry);
    let tags: Vec<bool> = histories[0].entries.iter().map(|s| s.is_staked).collect();
    assert_eq!(tags, vec![true, false, true]);
}

#[test]
fn no_snapshots_give_no_histories() {
    assert!(build_address_histories(&Vec::new(), &Registry::new()).is_empty());
    let empty_file = vec![file("s1", &[])];
    assert!(build_address_histories(&empty_file, &Registry::new()).is_empty());
}

#[test]
fn record_marks_on_second_entry_only() {
    let mut history = AddressHistory::new("1.1.1.1".to_string());
    assert!(history.entries.is_empty());
    assert!(!history.flagged);
    history.record(seen("A", "s1"));
    assert_eq!(history.entries.len(), 1);
    assert!(!history.flagged);
    history.record(seen("A", "s2"));
    assert_eq!(history.entries.len(), 1);
    assert!(!history.flagged);
    history.record(seen("B", "s3"));
    assert_eq!(history.entries.len(), 2);
    assert!(history.flagged);
    history.record(seen("B", "s4"));
    assert_eq!(history.entries.len(), 2);
    assert!(history.flagged);
}

#[test]
fn record_event_opens_a_history_for_a_new_address() {
    let mut histories: Vec<AddressHistory> = Vec::new();
    record_event(&mut histories, &"1.1.1.1".to_string(), seen("A", "s1"));
    record_event(&mut histories, &"2.2.2.2".to_string(), seen("A", "s1"));
    record_event(&mut histories, &"1.1.1.1".to_string(), seen("B", "s2"));
    assert_eq!(histories.len(), 2);
    assert_eq!(identities_of(&histories[0].entries), vec!["A", "B"]);
    assert!(histories[0].flagged);
    assert_eq!(identities_of(&histories[1].entries), vec!["A"]);
    assert!(!histories[1].flagged);
}

#[test]
fn observed_addresses_are_collected_once_each_for_staked_identities() {
    let registry = staked_registry(&["A", "B"]);
    let files = vec![
        file("s1", &[("A", Some("1.1.1.1")), ("B", Some("2.2.2.2")), ("Z", Some("9.9.9.9"))]),
        file("s2", &[("A", Some("3.3.3.3")), ("A", Some("1.1.1.1")), ("B", None)]),
        file("s3", &[("A", Some("")), ("B", Some("2.2.2.2"))]),
    ];
    let updated = record_observed_addresses(&files, registry);
    assert_eq!(updated.len(), 2);
    assert_eq!(updated.records[0].identity, "A");
    assert_eq!(updated.records[0].observed_addresses, vec!["1.1.1.1", "3.3.3.3"]);
    assert_eq!(updated.records[1].identity, "B");
    assert_eq!(updated.records[1].observed_addresses, vec!["2.2.2.2"]);
    assert_eq!(updated.records[0].activated_stake_lamports, 1);
    assert_eq!(updated.records[0].vote_account, "vote-A");
}

#[test]
fn observed_addresses_only_grow() {
    let registry = staked_registry(&["A"]);
    let first = record_observed_addresses(&vec![file("s1", &[("A", Some("1.1.1.1"))])], registry);
    assert_eq!(first.records[0].observed_addresses, vec!["1.1.1.1"]);
    let second = record_observed_addresses(
        &vec![file("s2", &[("A", Some("2.2.2.2")), ("A", Some("1.1.1.1"))])],
        first,
    );
    assert_eq!(second.records[0].observed_addresses, vec!["1.1.1.1", "2.2.2.2"]);
}
