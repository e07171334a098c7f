use sybil_analyzer::registry::{
    build_record, build_staked_validators_map, find_delegation_entry, find_mev_entry,
    find_record, lamports_to_sol, total_lamports_to_sol, ActiveValidator, DelegationEntry,
    MevPoolEntry, Registry, SolAmount, LAMPORTS_PER_SOL,
};

fn active(identity: &str, vote_account: &str, stake: Option<u64>) -> ActiveValidator {
    ActiveValidator {
        identity: identity.to_string(),
        vote_account: vote_account.to_string(),
        activated_stake: stake,
    }
}

fn pool_entry(vote_account: &str, pool_stake: u64) -> MevPoolEntry {
    MevPoolEntry {
        vote_account: vote_account.to_string(),
        running_pool: true,
        active_stake: 0,
        pool_stake_lamports: pool_stake,
    }
}

fn enrolled(identity: &str, status: &str) -> DelegationEntry {
    DelegationEntry { identity: identity.to_string(), status: status.to_string() }
}

fn registry_identities(registry: &Registry) -> Vec<String> {
    registry.records.iter().map(|r| r.identity.clone()).collect()
}

fn sol(whole: u128, fraction_lamports: u64) -> SolAmount {
    SolAmount { whole, fraction_lamports }
}

#[test]
fn lamports_to_sol_keeps_the_fraction() {
    assert_eq!(LAMPORTS_PER_SOL, 1_000_000_000);
    assert_eq!(lamports_to_sol(0), sol(0, 0));
    assert_eq!(lamports_to_sol(999_999_999), sol(0, 999_999_999));
    assert_eq!(lamports_to_sol(1_000_000_000), sol(1, 0));
    assert_eq!(lamports_to_sol(1_500_000_000), sol(1, 500_000_000));
    assert_eq!(lamports_to_sol(2_500_000_001), sol(2, 500_000_001));
    assert_eq!(lamports_to_sol(u64::MAX), sol(18_446_744_073, 709_551_615));
}

#[test]
fn one_and_a_half_sol_is_not_one_sol() {
    let amount = lamports_to_sol(1_500_000_000);
    let lamports =
        amount.whole * u128::from(LAMPORTS_PER_SOL) + u128::from(amount.fraction_lamports);
    assert_eq!(2 * lamports, 3 * u128::from(LAMPORTS_PER_SOL));
    assert_ne!(amount, lamports_to_sol(1_000_000_000));
}

#[test]
fn total_lamports_to_sol_keeps_the_fraction() {
    assert_eq!(total_lamports_to_sol(0), sol(0, 0));
    assert_eq!(total_lamports_to_sol(150_999_999_999), sol(150, 999_999_999));
    assert_eq!(
        total_lamports_to_sol(u128::from(u64::MAX) * 2),
        sol(36_893_488_147, 419_103_230)
    );
    assert_eq!(
        total_lamports_to_sol(u128::MAX),
        sol(340_282_366_920_938_463_463_374_607_431, 768_211_455)
    );
}

#[test]
fn registry_excludes_absent_and_zero_stake() {
    let list = vec![
        active("A", "va", Some(100)),
        active("B", "vb", None),
        active("C", "vc", Some(0)),
        active("D", "vd", Some(1)),
    ];
    let registry = build_staked_validators_map(&list, &Vec::new(), &Vec::new());
    assert_eq!(registry_identities(&registry), vec!["A", "D"]);
    assert_eq!(registry.len(), 2);
    assert!(registry.contains(&"A".to_string()));
    assert!(!registry.contains(&"B".to_string()));
    assert!(!registry.contains(&"C".to_string()));
    assert!(registry.get(&"B".to_string()).is_none());
    assert_eq!(registry.find(&"D".to_string()), Some(1));
    assert_eq!(registry.find(&"C".to_string()), None);
    assert_eq!(registry.records[0].activated_stake_lamports, 100);
    assert_eq!(registry.records[1].activated_stake_lamports, 1);
}

#[test]
fn registry_of_nothing_is_empty() {
    let registry = build_staked_validators_map(&Vec::new(), &Vec::new(), &Vec::new());
    assert_eq!(registry.len(), 0);
    assert_eq!(registry, Registry::new());
}

#[test]
fn record_joins_pool_by_vote_account_and_program_by_identity() {
    let list = vec![active("A", "va", Some(3_000_000_000)), active("B", "vb", Some(7))];
    let pool = vec![pool_entry("va", 2_000_000_000), pool_entry("other", 5)];
    let program = vec![enrolled("B", "Approved"), enrolled("X", "Rejected")];
    let registry = build_staked_validators_map(&list, &pool, &program);

    let a = registry.get(&"A".to_string()).unwrap();
    assert_eq!(a.identity, "A");
    assert_eq!(a.vote_account, "va");
    assert_eq!(a.activated_stake_lamports, 3_000_000_000);
    assert_eq!(a.activated_stake_sol(), sol(3, 0));
    assert!(a.in_mev_pool);
    assert_eq!(a.mev_pool_stake_lamports, 2_000_000_000);
    assert_eq!(a.mev_pool_stake_sol(), sol(2, 0));
    assert!(!a.delegation_participant);
    assert_eq!(a.delegation_status, None);
    assert!(a.observed_addresses.is_empty());

    let b = registry.get(&"B".to_string()).unwrap();
    assert!(!b.in_mev_pool);
    assert_eq!(b.mev_pool_stake_lamports, 0);
    assert_eq!(b.mev_pool_stake_sol(), sol(0, 0));
    assert_eq!(b.activated_stake_sol(), sol(0, 7));
    assert!(b.delegation_participant);
    assert_eq!(b.delegation_status, Some("Approved".to_string()));
}

#[test]
fn pool_is_joined_by_vote_account_not_by_identity() {
    let list = vec![active("A", "va", Some(5))];
    let pool = vec![pool_entry("A", 9)];
    let registry = build_staked_validators_map(&list, &pool, &Vec::new());
    assert!(!registry.records[0].in_mev_pool);
    assert_eq!(registry.records[0].mev_pool_stake_lamports, 0);
}

#[test]
fn listed_pool_member_counts_whatever_its_flag() {
    let list = vec![active("A", "va", Some(5))];
    let pool = vec![MevPoolEntry {
        vote_account: "va".to_string(),
        running_pool: false,
        active_stake: 11,
        pool_stake_lamports: 4,
    }];
    let registry = build_staked_validators_map(&list, &pool, &Vec::new());
    assert!(registry.records[0].in_mev_pool);
    assert_eq!(registry.records[0].mev_pool_stake_lamports, 4);
}

#[test]
fn last_entry_of_a_list_wins() {
    let pool = vec![pool_entry("va", 1), pool_entry("vb", 2), pool_entry("va", 3)];
    assert_eq!(find_mev_entry(&pool, &"va".to_string()), Some(2));
    assert_eq!(find_mev_entry(&pool, &"vb".to_string()), Some(1));
    assert_eq!(find_mev_entry(&pool, &"vc".to_string()), None);
    let program = vec![enrolled("A", "Pending"), enrolled("A", "Approved")];
    assert_eq!(find_delegation_entry(&program, &"A".to_string()), Some(1));
    assert_eq!(find_delegation_entry(&program, &"B".to_string()), None);

    let list = vec![active("A", "va", Some(5))];
    let registry = build_staked_validators_map(&list, &pool, &program);
    assert_eq!(registry.records[0].mev_pool_stake_lamports, 3);
    assert_eq!(registry.records[0].delegation_status, Some("Approved".to_string()));
}

#[test]
fn later_staked_entry_replaces_earlier_in_place() {
    let list = vec![
        active("A", "va1", Some(10)),
        active("B", "vb", Some(20)),
        active("A", "va2", Some(30)),
        active("A", "va3", Some(0)),
        active("A", "va4", None),
    ];
    let registry = build_staked_validators_map(&list, &Vec::new(), &Vec::new());
    assert_eq!(registry_identities(&registry), vec!["A", "B"]);
    assert_eq!(registry.records[0].vote_account, "va2");
    assert_eq!(registry.records[0].activated_stake_lamports, 30);
}

#[test]
fn build_record_is_none_without_positive_stake() {
    assert!(build_record(&active("A", "va", None), &Vec::new(), &Vec::new()).is_none());
    assert!(build_record(&active("A", "va", Some(0)), &Vec::new(), &Vec::new()).is_none());
    let record = build_record(&active("A", "va", Some(1)), &Vec::new(), &Vec::new()).unwrap();
    assert_eq!(record.identity, "A");
    assert_eq!(record.activated_stake_lamports, 1);
}

#[test]
fn find_record_gives_first_of_an_identity() {
    let a1 = build_record(&active("A", "v1", Some(1)), &Vec::new(), &Vec::new()).unwrap();
    let b = build_record(&active("B", "v2", Some(2)), &Vec::new(), &Vec::new()).unwrap();
    let a2 = build_record(&active("A", "v3", Some(3)), &Vec::new(), &Vec::new()).unwrap();
    let records = vec![a1, b, a2];
    assert_eq!(find_record(&records, &"A".to_string()), Some(0));
    assert_eq!(find_record(&records, &"B".to_string()), Some(1));
    assert_eq!(find_record(&records, &"C".to_string()), None);
}

#[test]
fn cloned_record_equals_its_source() {
    let list = vec![active("A", "va", Some(3))];
    let program = vec![enrolled("A", "Approved")];
    let registry = build_staked_validators_map(&list, &Vec::new(), &program);
    let copy = registry.records[0].clone();
    assert_eq!(copy, registry.records[0]);
}

#[test]
fn stake_in_sol_keeps_the_fraction_of_a_record() {
    let list = vec![active("A", "VA", Some(1_500_000_000))];
    let registry = build_staked_validators_map(&list, &Vec::new(), &Vec::new());
    let record = registry.get(&"A".to_string()).unwrap();
    assert_eq!(record.activated_stake_lamports, 1_500_000_000);
    assert_eq!(record.activated_stake_sol(), sol(1, 500_000_000));
}
