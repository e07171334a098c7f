//! The validator registry: one enriched record per staked identity, joined
//! from the active-validator list, the MEV-pool list and the
//! delegation-program list.

use crate::names::{
    clone_names, first_index, is_first_index, lemma_first_index, lemma_first_index_unique, views,
};
use vstd::prelude::*;

verus! {

/// The number of lamports in one SOL.
pub const LAMPORTS_PER_SOL: u64 = 1_000_000_000;

/// An amount in SOL, exact to the lamport: the whole SOL, and the lamports
/// left over as the fraction, in billionths of a SOL.
#[derive(Clone, Copy, Debug, PartialEq, Eq)]
pub struct SolAmount {
    pub whole: u128,
    /// Fewer than `LAMPORTS_PER_SOL`.
    pub fraction_lamports: u64,
}

impl SolAmount {
    /// The amount in lamports: the amount in SOL times `LAMPORTS_PER_SOL`.
    pub open spec fn in_lamports(&self) -> nat {
        (self.whole * LAMPORTS_PER_SOL + self.fraction_lamports) as nat
    }

    /// The fraction is less than one SOL, so that an amount is written in one
    /// way only.
    pub open spec fn wf(&self) -> bool {
        self.fraction_lamports < LAMPORTS_PER_SOL
    }
}

/// An amount of lamports in SOL: the lamports divided by `LAMPORTS_PER_SOL`,
/// the fraction kept.
pub fn lamports_to_sol(lamports: u64) -> (sol: SolAmount)
    ensures
        sol.in_lamports() == lamports,
        sol.wf(),
{
    total_lamports_to_sol(lamports as u128)
}

/// A sum of stakes in SOL: the lamports divided by `LAMPORTS_PER_SOL`, the
/// fraction kept.
pub fn total_lamports_to_sol(lamports: u128) -> (sol: SolAmount)
    ensures
        sol.in_lamports() == lamports,
        sol.wf(),
{
    let per_sol: u128 = 1_000_000_000;
    let whole = lamports / per_sol;
    let rest = lamports % per_sol;
    SolAmount { whole, fraction_lamports: rest as u64 }
}

/// An amount in SOL is fixed by its lamports: two well-formed amounts of the
/// same lamports are the same amount.
pub proof fn lemma_sol_amount_unique(a: SolAmount, b: SolAmount)
    requires
        a.wf(),
        b.wf(),
        a.in_lamports() == b.in_lamports(),
    ensures
        a == b,
{
    assert(a.whole == b.whole) by (nonlinear_arith)
        requires
            a.whole * 1_000_000_000 + a.fraction_lamports == b.whole * 1_000_000_000
                + b.fraction_lamports,
            a.fraction_lamports < 1_000_000_000,
            b.fraction_lamports < 1_000_000_000,
    ;
}

/// One entry of the active-validator list.
#[derive(Debug, PartialEq, Eq)]
pub struct ActiveValidator {
    pub identity: String,
    pub vote_account: String,
    /// Absent where the list gives no stake for the validator.
    pub activated_stake: Option<u64>,
}

/// An entry of the active-validator list, as contracts see it.
pub struct ActiveValidatorView {
    pub identity: Seq<char>,
    pub vote_account: Seq<char>,
    pub activated_stake: Option<u64>,
}

impl View for ActiveValidator {
    type V = ActiveValidatorView;

    open spec fn view(&self) -> ActiveValidatorView {
        ActiveValidatorView {
            identity: self.identity@,
            vote_account: self.vote_account@,
            activated_stake: self.activated_stake,
        }
    }
}

/// One entry of the MEV-pool list. The join reads the vote account and the
/// stake that the pool holds; being listed is what makes a validator a member.
#[derive(Debug, PartialEq, Eq)]
pub struct MevPoolEntry {
    pub vote_account: String,
    pub running_pool: bool,
    pub active_stake: u64,
    pub pool_stake_lamports: u64,
}

/// An entry of the MEV-pool list, as contracts see it.
pub struct MevPoolEntryView {
    pub vote_account: Seq<char>,
    pub running_pool: bool,
    pub active_stake: u64,
    pub pool_stake_lamports: u64,
}

impl View for MevPoolEntry {
    type V = MevPoolEntryView;

    open spec fn view(&self) -> MevPoolEntryView {
        MevPoolEntryView {
            vote_account: self.vote_account@,
            running_pool: self.running_pool,
            active_stake: self.active_stake,
            pool_stake_lamports: self.pool_stake_lamports,
        }
    }
}

/// One entry of the delegation-program list.
#[derive(Debug, PartialEq, Eq)]
pub struct DelegationEntry {
    pub identity: String,
    pub status: String,
}

/// An entry of the delegation-program list, as contracts see it.
pub struct DelegationEntryView {
    pub identity: Seq<char>,
    pub status: Seq<char>,
}

impl View for DelegationEntry {
    type V = DelegationEntryView;

    open spec fn view(&self) -> DelegationEntryView {
        DelegationEntryView { identity: self.identity@, status: self.status@ }
    }
}

/// What is known of one staked identity.
#[derive(Debug, PartialEq, Eq)]
pub struct ValidatorRecord {
    pub identity: String,
    pub vote_account: String,
    pub activated_stake_lamports: u64,
    pub in_mev_pool: bool,
    /// Zero unless `in_mev_pool`.
    pub mev_pool_stake_lamports: u64,
    pub delegation_participant: bool,
    /// Present exactly when `delegation_participant`.
    pub delegation_status: Option<String>,
    /// The addresses at which the identity was seen, each once, in the order
    /// in which they were first seen.
    pub observed_addresses: Vec<String>,
}

/// A validator record, as contracts see it.
pub struct ValidatorRecordView {
    pub identity: Seq<char>,
    pub vote_account: Seq<char>,
    pub activated_stake_lamports: u64,
    pub in_mev_pool: bool,
    pub mev_pool_stake_lamports: u64,
    pub delegation_participant: bool,
    pub delegation_status: Option<Seq<char>>,
    pub observed_addresses: Seq<Seq<char>>,
}

impl View for ValidatorRecord {
    type V = ValidatorRecordView;

    open spec fn view(&self) -> ValidatorRecordView {
        ValidatorRecordView {
            identity: self.identity@,
            vote_account: self.vote_account@,
            activated_stake_lamports: self.activated_stake_lamports,
            in_mev_pool: self.in_mev_pool,
            mev_pool_stake_lamports: self.mev_pool_stake_lamports,
            delegation_participant: self.delegation_participant,
            delegation_status: match self.delegation_status {
                Some(status) => Some(status@),
                None => None,
            },
            observed_addresses: views(self.observed_addresses@),
        }
    }
}

impl Clone for ValidatorRecord {
    fn clone(&self) -> (copy: Self)
        ensures
            copy@ == self@,
    {
        let delegation_status = match &self.delegation_status {
            Some(status) => Some(status.clone()),
            None => None,
        };
        ValidatorRecord {
            identity: self.identity.clone(),
            vote_account: self.vote_account.clone(),
            activated_stake_lamports: self.activated_stake_lamports,
            in_mev_pool: self.in_mev_pool,
            mev_pool_stake_lamports: self.mev_pool_stake_lamports,
            delegation_participant: self.delegation_participant,
            delegation_status,
            observed_addresses: clone_names(&self.observed_addresses),
        }
    }
}

impl ValidatorRecord {
    /// The activated stake in SOL.
    pub fn activated_stake_sol(&self) -> (sol: SolAmount)
        ensures
            sol.in_lamports() == self.activated_stake_lamports,
            sol.wf(),
    {
        lamports_to_sol(self.activated_stake_lamports)
    }

    /// The stake that the MEV pool holds with the validator, in SOL.
    pub fn mev_pool_stake_sol(&self) -> (sol: SolAmount)
        ensures
            sol.in_lamports() == self.mev_pool_stake_lamports,
            sol.wf(),
    {
        lamports_to_sol(self.mev_pool_stake_lamports)
    }
}

/// An entry counts only with a stake that is present and positive.
pub open spec fn is_staked_entry(entry: ActiveValidatorView) -> bool {
    entry.activated_stake matches Some(stake) && stake > 0
}

/// The entry of the MEV-pool list for a vote account: the last one, where the
/// list names the account more than once.
pub open spec fn mev_entry_for(pool: Seq<MevPoolEntryView>, vote_account: Seq<char>) -> Option<
    MevPoolEntryView,
>
    decreases pool.len(),
{
    if pool.len() == 0 {
        None
    } else if pool.last().vote_account == vote_account {
        Some(pool.last())
    } else {
        mev_entry_for(pool.drop_last(), vote_account)
    }
}

/// The entry of the delegation-program list for an identity: the last one,
/// where the list names the identity more than once.
pub open spec fn delegation_entry_for(
    delegation: Seq<DelegationEntryView>,
    identity: Seq<char>,
) -> Option<DelegationEntryView>
    decreases delegation.len(),
{
    if delegation.len() == 0 {
        None
    } else if delegation.last().identity == identity {
        Some(delegation.last())
    } else {
        delegation_entry_for(delegation.drop_last(), identity)
    }
}

/// The record of a staked entry: the entry joined with the MEV-pool list by
/// vote account and with the delegation-program list by identity. An identity
/// that a list does not name is no member, with no stake in the pool and no
/// status. No address has been observed yet.
pub open spec fn record_of(
    entry: ActiveValidatorView,
    pool: Seq<MevPoolEntryView>,
    delegation: Seq<DelegationEntryView>,
) -> ValidatorRecordView {
    let mev = mev_entry_for(pool, entry.vote_account);
    let enrolled = delegation_entry_for(delegation, entry.identity);
    ValidatorRecordView {
        identity: entry.identity,
        vote_account: entry.vote_account,
        activated_stake_lamports: entry.activated_stake.unwrap(),
        in_mev_pool: mev is Some,
        mev_pool_stake_lamports: match mev {
            Some(m) => m.pool_stake_lamports,
            None => 0,
        },
        delegation_participant: enrolled is Some,
        delegation_status: match enrolled {
            Some(e) => Some(e.status),
            None => None,
        },
        observed_addresses: Seq::empty(),
    }
}

/// The identities of `records`, in order.
pub open spec fn identities(records: Seq<ValidatorRecordView>) -> Seq<Seq<char>> {
    Seq::new(records.len(), |i: int| records[i].identity)
}

/// `records` with `record` in the place of the first record of the same
/// identity, or at the end where there is none.
pub open spec fn upsert(records: Seq<ValidatorRecordView>, record: ValidatorRecordView) -> Seq<
    ValidatorRecordView,
> {
    match first_index(identities(records), record.identity) {
        Some(k) => records.update(k, record),
        None => records.push(record),
    }
}

/// The registry of an active-validator list: the staked entries taken in
/// order, each as its record, a later entry replacing an earlier one of the
/// same identity in its place. Entries without a positive stake are left out.
pub open spec fn registry_of(
    active: Seq<ActiveValidatorView>,
    pool: Seq<MevPoolEntryView>,
    delegation: Seq<DelegationEntryView>,
) -> Seq<ValidatorRecordView>
    decreases active.len(),
{
    if active.len() == 0 {
        Seq::empty()
    } else {
        let earlier = registry_of(active.drop_last(), pool, delegation);
        if is_staked_entry(active.last()) {
            upsert(earlier, record_of(active.last(), pool, delegation))
        } else {
            earlier
        }
    }
}

/// `i` is the last staked entry of `identity` in `active`.
pub open spec fn is_last_staked_entry(
    active: Seq<ActiveValidatorView>,
    identity: Seq<char>,
    i: int,
) -> bool {
    &&& 0 <= i < active.len()
    &&& is_staked_entry(active[i])
    &&& active[i].identity == identity
    &&& forall|j: int|
        i < j < active.len() ==> !(is_staked_entry(#[trigger] active[j]) && active[j].identity
            == identity)
}

/// Some staked entry of `active` carries `identity`.
pub open spec fn has_staked_entry(active: Seq<ActiveValidatorView>, identity: Seq<char>) -> bool {
    exists|i: int|
        0 <= i < active.len() && is_staked_entry(#[trigger] active[i]) && active[i].identity
            == identity
}

/// The registry, mapping each staked identity to its record.
#[derive(Debug, PartialEq, Eq)]
pub struct Registry {
    pub records: Vec<ValidatorRecord>,
}

impl View for Registry {
    type V = Seq<ValidatorRecordView>;

    open spec fn view(&self) -> Seq<ValidatorRecordView> {
        views(self.records@)
    }
}

/// No identity has two records, and every record carries a positive stake.
pub open spec fn registry_wf(records: Seq<ValidatorRecordView>) -> bool {
    &&& identities(records).no_duplicates()
    &&& forall|k: int|
        0 <= k < records.len() ==> (#[trigger] records[k]).activated_stake_lamports >= 1
}

/// Whether `records` holds a record of `identity`.
pub open spec fn is_staked(records: Seq<ValidatorRecordView>, identity: Seq<char>) -> bool {
    identities(records).contains(identity)
}

/// The record of `identity` in `records`: the first, should there be more.
pub open spec fn record_for(records: Seq<ValidatorRecordView>, identity: Seq<char>) -> Option<
    ValidatorRecordView,
> {
    match first_index(identities(records), identity) {
        Some(k) => Some(records[k]),
        None => None,
    }
}

/// The index of the first of `records` that carries `identity`.
pub fn find_record(records: &Vec<ValidatorRecord>, identity: &String) -> (found: Option<usize>)
    ensures
        match found {
            Some(k) => first_index(identities(views(records@)), identity@) == Some(k as int),
            None => first_index(identities(views(records@)), identity@) is None,
        },
        found is Some <==> is_staked(views(records@), identity@),
{
    let ghost ids = identities(views(records@));
    proof {
        lemma_first_index(ids, identity@);
    }
    let mut k: usize = 0;
    while k < records.len()
        invariant
            k <= records.len(),
            ids == identities(views(records@)),
            forall|j: int| 0 <= j < k ==> ids[j] != identity@,
        decreases records.len() - k,
    {
        if records[k].identity == *identity {
            proof {
                assert(is_first_index(ids, identity@, k as int));
                lemma_first_index_unique(ids, identity@, k as int);
            }
            return Some(k);
        }
        k += 1;
    }
    None
}

impl Registry {
    /// No identity has two records, and every record carries a positive
    /// stake.
    pub open spec fn wf(&self) -> bool {
        registry_wf(self@)
    }

    /// The registry without a record.
    pub fn new() -> (registry: Self)
        ensures
            registry@ == Seq::<ValidatorRecordView>::empty(),
            registry.wf(),
    {
        let registry = Registry { records: Vec::new() };
        proof {
            assert(registry@ =~= Seq::empty());
        }
        registry
    }

    /// The number of records.
    pub fn len(&self) -> (n: usize)
        ensures
            n == self@.len(),
    {
        self.records.len()
    }

    /// The index of the record of `identity`, if the registry holds one.
    pub fn find(&self, identity: &String) -> (found: Option<usize>)
        ensures
            match found {
                Some(k) => first_index(identities(self@), identity@) == Some(k as int),
                None => first_index(identities(self@), identity@) is None,
            },
            found is Some <==> is_staked(self@, identity@),
    {
        find_record(&self.records, identity)
    }

    /// Whether the registry holds a record of `identity`.
    pub fn contains(&self, identity: &String) -> (found: bool)
        ensures
            found == is_staked(self@, identity@),
    {
        self.find(identity).is_some()
    }

    /// The record of `identity`, if the registry holds one.
    pub fn get(&self, identity: &String) -> (found: Option<&ValidatorRecord>)
        ensures
            match found {
                Some(record) => record_for(self@, identity@) == Some(record@),
                None => record_for(self@, identity@) is None,
            },
    {
        match self.find(identity) {
            Some(k) => Some(&self.records[k]),
            None => None,
        }
    }
}

/// The index of the entry of the MEV-pool list for `vote_account`.
pub fn find_mev_entry(pool: &Vec<MevPoolEntry>, vote_account: &String) -> (found: Option<usize>)
    ensures
        match found {
            Some(i) => i < pool.len() && mev_entry_for(views(pool@), vote_account@) == Some(
                pool[i as int]@,
            ),
            None => mev_entry_for(views(pool@), vote_account@) is None,
        },
{
    let mut found: Option<usize> = None;
    let mut i: usize = 0;
    while i < pool.len()
        invariant
            i <= pool.len(),
            match found {
                Some(k) => k < i && mev_entry_for(views(pool@).take(i as int), vote_account@)
                    == Some(pool[k as int]@),
                None => mev_entry_for(views(pool@).take(i as int), vote_account@) is None,
            },
        decreases pool.len() - i,
    {
        proof {
            assert(views(pool@).take(i + 1).drop_last() =~= views(pool@).take(i as int));
        }
        if pool[i].vote_account == *vote_account {
            found = Some(i);
        }
        i += 1;
    }
    proof {
        assert(views(pool@).take(pool.len() as int) =~= views(pool@));
    }
    found
}

/// The index of the entry of the delegation-program list for `identity`.
pub fn find_delegation_entry(delegation: &Vec<DelegationEntry>, identity: &String) -> (found:
    Option<usize>)
    ensures
        match found {
            Some(i) => i < delegation.len() && delegation_entry_for(
                views(delegation@),
                identity@,
            ) == Some(delegation[i as int]@),
            None => delegation_entry_for(views(delegation@), identity@) is None,
        },
{
    let mut found: Option<usize> = None;
    let mut i: usize = 0;
    while i < delegation.len()
        invariant
            i <= delegation.len(),
            match found {
                Some(k) => k < i && delegation_entry_for(
                    views(delegation@).take(i as int),
                    identity@,
                ) == Some(delegation[k as int]@),
                None => delegation_entry_for(views(delegation@).take(i as int), identity@) is None,
            },
        decreases delegation.len() - i,
    {
        proof {
            assert(views(delegation@).take(i + 1).drop_last() =~= views(delegation@).take(
                i as int,
            ));
        }
        if delegation[i].identity == *identity {
            found = Some(i);
        }
        i += 1;
    }
    proof {
        assert(views(delegation@).take(delegation.len() as int) =~= views(delegation@));
    }
    found
}

/// The record of an entry, where the entry carries a positive stake.
pub fn build_record(
    entry: &ActiveValidator,
    pool: &Vec<MevPoolEntry>,
    delegation: &Vec<DelegationEntry>,
) -> (built: Option<ValidatorRecord>)
    ensures
        match built {
            Some(record) => is_staked_entry(entry@) && record@ == record_of(
                entry@,
                views(pool@),
                views(delegation@),
            ),
            None => !is_staked_entry(entry@),
        },
{
    let stake = match entry.activated_stake {
        Some(stake) => stake,
        None => {
            return None;
        },
    };
    if stake == 0 {
        return None;
    }
    let (in_mev_pool, mev_pool_stake_lamports) = match find_mev_entry(pool, &entry.vote_account) {
        Some(i) => (true, pool[i].pool_stake_lamports),
        None => (false, 0),
    };
    let (delegation_participant, delegation_status) = match find_delegation_entry(
        delegation,
        &entry.identity,
    ) {
        Some(i) => (true, Some(delegation[i].status.clone())),
        None => (false, None),
    };
    let record = ValidatorRecord {
        identity: entry.identity.clone(),
        vote_account: entry.vote_account.clone(),
        activated_stake_lamports: stake,
        in_mev_pool,
        mev_pool_stake_lamports,
        delegation_participant,
        delegation_status,
        observed_addresses: Vec::new(),
    };
    proof {
        assert(record@.observed_addresses =~= Seq::empty());
    }
    Some(record)
}

/// Joins the three reference lists into the registry of staked validators.
/// An entry whose stake is absent or zero leaves no trace.
pub fn build_staked_validators_map(
    active_validators: &Vec<ActiveValidator>,
    mev_pool: &Vec<MevPoolEntry>,
    delegation: &Vec<DelegationEntry>,
) -> (registry: Registry)
    ensures
        registry@ == registry_of(views(active_validators@), views(mev_pool@), views(delegation@)),
        registry.wf(),
{
    let ghost active = views(active_validators@);
    let ghost pool = views(mev_pool@);
    let ghost enrolled = views(delegation@);
    let mut registry = Registry { records: Vec::new() };
    let mut i: usize = 0;
    proof {
        assert(active.take(0) =~= Seq::empty());
        assert(registry@ =~= Seq::empty());
    }
    while i < active_validators.len()
        invariant
            i <= active_validators.len(),
            active == views(active_validators@),
            pool == views(mev_pool@),
            enrolled == views(delegation@),
            registry@ == registry_of(active.take(i as int), pool, enrolled),
        decreases active_validators.len() - i,
    {
        let entry = &active_validators[i];
        proof {
            assert(active.take(i + 1).drop_last() =~= active.take(i as int));
            assert(active.take(i + 1).last() == entry@);
        }
        match build_record(entry, mev_pool, delegation) {
            Some(record) => {
                let ghost before = registry@;
                match registry.find(&entry.identity) {
                    Some(k) => {
                        registry.records[k] = record;
                        proof {
                            assert(registry@ =~= before.update(k as int, record@));
                        }
                    },
                    None => {
                        registry.records.push(record);
                        proof {
                            assert(registry@ =~= before.push(record@));
                        }
                    },
                }
            },
            None => {},
        }
        i += 1;
    }
    proof {
        assert(active.take(active_validators.len() as int) =~= active);
        lemma_registry_contents(active, pool, enrolled);
    }
    registry
}

/// What the registry holds: one record for each identity that has a staked
/// entry and for no other, each built from the last staked entry of its
/// identity, so that every record carries a positive stake. An entry whose
/// stake is absent or zero adds nothing and replaces nothing.
pub proof fn lemma_registry_contents(
    active: Seq<ActiveValidatorView>,
    pool: Seq<MevPoolEntryView>,
    delegation: Seq<DelegationEntryView>,
)
    ensures
        registry_wf(registry_of(active, pool, delegation)),
        forall|identity: Seq<char>|
            is_staked(registry_of(active, pool, delegation), identity) <==> has_staked_entry(
                active,
                identity,
            ),
        forall|identity: Seq<char>, i: int|
            is_last_staked_entry(active, identity, i) ==> record_for(
                registry_of(active, pool, delegation),
                identity,
            ) == Some(record_of(active[i], pool, delegation)),
    decreases active.len(),
{
    let registry = registry_of(active, pool, delegation);
    if active.len() > 0 {
        let init = active.drop_last();
        let earlier = registry_of(init, pool, delegation);
        let entry = active.last();
        lemma_registry_contents(init, pool, delegation);
        assert forall|identity: Seq<char>|
            has_staked_entry(init, identity) implies has_staked_entry(active, identity) by {
            let i = choose|i: int|
                0 <= i < init.len() && is_staked_entry(#[trigger] init[i]) && init[i].identity
                    == identity;
            assert(active[i] == init[i]);
        }
        assert forall|identity: Seq<char>|
            has_staked_entry(active, identity) && !(is_staked_entry(entry) && entry.identity
                == identity) implies has_staked_entry(init, identity) by {
            let i = choose|i: int|
                0 <= i < active.len() && is_staked_entry(#[trigger] active[i]) && active[i].identity
                    == identity;
            assert(init[i] == active[i]);
        }
        assert forall|identity: Seq<char>, i: int|
            is_last_staked_entry(active, identity, i) && i < init.len()
            implies is_last_staked_entry(init, identity, i) by {
            assert(init[i] == active[i]);
            assert forall|j: int| i < j < init.len() implies !(is_staked_entry(#[trigger] init[j])
                && init[j].identity == identity) by {
                assert(init[j] == active[j]);
            }
        }
        if is_staked_entry(entry) {
            let record = record_of(entry, pool, delegation);
            let ids = identities(earlier);
            lemma_first_index(ids, record.identity);
            assert(active[active.len() - 1] == entry);
            match first_index(ids, record.identity) {
                Some(k) => {
                    assert(identities(registry) =~= ids);
                    assert forall|identity: Seq<char>, i: int|
                        is_last_staked_entry(active, identity, i) implies record_for(
                        registry,
                        identity,
                    ) == Some(record_of(active[i], pool, delegation)) by {
                        lemma_first_index(ids, identity);
                        if identity == entry.identity {
                            assert(i == active.len() - 1);
                        } else {
                            assert(is_last_staked_entry(init, identity, i));
                        }
                    }
                },
                None => {
                    assert(identities(registry) =~= ids.push(record.identity));
                    assert forall|identity: Seq<char>| is_staked(registry, identity) implies (
                    is_staked(earlier, identity) || identity == entry.identity) by {
                        let j = identities(registry).index_of(identity);
                        if j < ids.len() {
                            assert(ids[j] == identity);
                        }
                    }
                    assert forall|identity: Seq<char>|
                        is_staked(earlier, identity) implies is_staked(registry, identity) by {
                        let j = ids.index_of(identity);
                        assert(identities(registry)[j] == identity);
                    }
                    assert(identities(registry)[ids.len() as int] == entry.identity);
                    assert forall|identity: Seq<char>, i: int|
                        is_last_staked_entry(active, identity, i) implies record_for(
                        registry,
                        identity,
                    ) == Some(record_of(active[i], pool, delegation)) by {
                        if identity == entry.identity {
                            assert(i == active.len() - 1);
                            assert(is_first_index(
                                identities(registry),
                                identity,
                                ids.len() as int,
                            ));
                            lemma_first_index_unique(
                                identities(registry),
                                identity,
                                ids.len() as int,
                            );
                        } else {
                            assert(is_last_staked_entry(init, identity, i));
                            lemma_first_index(ids, identity);
                            let k = first_index(ids, identity).unwrap();
                            assert(is_first_index(identities(registry), identity, k));
                            lemma_first_index_unique(identities(registry), identity, k);
                        }
                    }
                },
            }
        } else {
            assert forall|identity: Seq<char>, i: int|
                is_last_staked_entry(active, identity, i) implies i < init.len() by {}
        }
    }
}

} // verus!
