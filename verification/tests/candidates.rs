use sybil_analyzer::candidate::{
    filter_candidates, is_candidate_history, lookup_validators, make_candidate,
    staked_identity_set, sum_stake,
};
use sybil_analyzer::history::{AddressHistory, Sighting};
use sybil_analyzer::registry::{build_staked_validators_map, ActiveValidator, Registry};

fn entry(identity: &str, is_staked: bool) -> Sighting {
    Sighting {
        identity: identity.to_string(),
        is_staked,
        snapshot_label: "s".to_string(),
    }
}

fn history(address: &str, flagged: bool, entries: Vec<Sighting>) -> AddressHistory {
    AddressHistory { address: address.to_string(), entries, flagged }
}

fn registry_with(stakes: &[(&str, u64)]) -> Registry {
    let list: Vec<ActiveValidator> = stakes
        .iter()
        .map(|(identity, stake)| ActiveValidator {
            identity: identity.to_string(),
            vote_account: format!("vote-{}", identity),
            activated_stake: Some(*stake),
        })
        .collect();
    build_staked_validators_map(&list, &Vec::new(), &Vec::new())
}

#[test]
fn staked_identity_set_keeps_first_occurrences() {
    let entries = vec![
        entry("A", true),
        entry("X", false),
        entry("B", true),
        entry("A", true),
        entry("C", true),
        entry("B", true),
    ];
    assert_eq!(staked_identity_set(&entries), vec!["A", "B", "C"]);
    assert!(staked_identity_set(&Vec::new()).is_empty());
    assert!(staked_identity_set(&vec![entry("X", false)]).is_empty());
}

#[test]
fn one_staked_identity_is_no_candidate_even_if_flagged() {
    let flagged = history(
        "1.1.1.1",
        true,
        vec![entry("A", true), entry("X", false), entry("A", true), entry("Y", false)],
    );
    assert!(!is_candidate_history(&flagged));
    let registry = registry_with(&[("A", 10)]);
    assert!(filter_candidates(&vec![flagged], &registry).is_empty());
}

#[test]
fn two_staked_identities_make_a_candidate() {
    let flagged = history("1.1.1.1", true, vec![entry("A", true), entry("B", true)]);
    assert!(is_candidate_history(&flagged));
    let registry = registry_with(&[("A", 10), ("B", 5)]);
    let candidates = filter_candidates(&vec![flagged], &registry);
    assert_eq!(candidates.len(), 1);
    assert_eq!(candidates[0].address, "1.1.1.1");
    assert_eq!(candidates[0].staked_identities, vec!["A", "B"]);
    assert_eq!(candidates[0].identities.len(), 2);
    assert_eq!(candidates[0].validators.len(), 2);
    assert_eq!(candidates[0].validators[0].identity, "A");
    assert_eq!(candidates[0].validators[1].identity, "B");
    assert_eq!(candidates[0].total_stake_lamports, 15);
}

#[test]
fn unflagged_history_is_no_candidate() {
    let unmarked = history("1.1.1.1", false, vec![entry("A", true), entry("B", true)]);
    assert!(!is_candidate_history(&unmarked));
}

#[test]
fn unstaked_identities_do_not_count_towards_the_threshold() {
    let flagged = history(
        "1.1.1.1",
        true,
        vec![entry("X", false), entry("Y", false), entry("Z", false)],
    );
    assert!(!is_candidate_history(&flagged));
    assert!(filter_candidates(&vec![flagged], &Registry::new()).is_empty());
}

#[test]
fn candidates_keep_the_order_of_the_histories() {
    let registry = registry_with(&[("A", 1), ("B", 2), ("C", 4), ("D", 8)]);
    let histories = vec![
        history("3.3.3.3", true, vec![entry("C", true), entry("D", true)]),
        history("2.2.2.2", true, vec![entry("A", true), entry("X", false)]),
        history("1.1.1.1", true, vec![entry("A", true), entry("B", true), entry("A", true)]),
    ];
    let candidates = filter_candidates(&histories, &registry);
    let addresses: Vec<&str> = candidates.iter().map(|c| c.address.as_str()).collect();
    assert_eq!(addresses, vec!["3.3.3.3", "1.1.1.1"]);
    assert_eq!(candidates[0].total_stake_lamports, 12);
    assert_eq!(candidates[1].total_stake_lamports, 3);
    assert_eq!(candidates[1].identities.len(), 3);
    assert_eq!(candidates[1].validators.len(), 2);
}

#[test]
fn make_candidate_copies_the_history() {
    let registry = registry_with(&[("A", 7), ("B", 9)]);
    let flagged = history("1.1.1.1", true, vec![entry("A", true), entry("B", true)]);
    let candidate = make_candidate(&flagged, &registry);
    assert_eq!(candidate.address, flagged.address);
    assert_eq!(candidate.identities, flagged.entries);
    assert_eq!(candidate.total_stake_lamports, 16);
}

#[test]
fn lookup_passes_over_identities_without_record() {
    let registry = registry_with(&[("A", 7), ("B", 9)]);
    let wanted = vec!["B".to_string(), "Q".to_string(), "A".to_string()];
    let found = lookup_validators(&registry, &wanted);
    let identities: Vec<&str> = found.iter().map(|r| r.identity.as_str()).collect();
    assert_eq!(identities, vec!["B", "A"]);
}

#[test]
fn sum_stake_adds_without_overflow() {
    let registry = registry_with(&[("A", u64::MAX), ("B", u64::MAX), ("C", 3)]);
    assert_eq!(sum_stake(&registry.records), 2 * u128::from(u64::MAX) + 3);
    assert_eq!(sum_stake(&Vec::new()), 0);
}
