//! Candidate addresses: the marked addresses whose history holds two or more
//! distinct staked identities. An address that hosted a single staked
//! identity is no candidate, whatever else was seen there.

use crate::history::{
    history_addresses, tagged_by, AddressHistory, AddressHistoryView, Sighting, SightingView,
};
use crate::names::{
    distinct, first_index, lemma_distinct_properties, lemma_first_index, lemma_views_push,
    push_distinct, views,
};
use crate::registry::{
    identities, is_staked, record_for, Registry, ValidatorRecord, ValidatorRecordView,
};
use vstd::prelude::*;

verus! {

/// One candidate address with what was seen there.
#[derive(Debug, PartialEq, Eq)]
pub struct Candidate {
    pub address: String,
    /// The history of the address.
    pub identities: Vec<Sighting>,
    /// The staked identities of the history, each once, in the order in which
    /// they first appear.
    pub staked_identities: Vec<String>,
    /// The registry's records of the staked identities, in their order.
    pub validators: Vec<ValidatorRecord>,
    /// The activated stake of `validators`, summed.
    pub total_stake_lamports: u128,
}

/// A candidate, as contracts see it.
pub struct CandidateView {
    pub address: Seq<char>,
    pub identities: Seq<SightingView>,
    pub staked_identities: Seq<Seq<char>>,
    pub validators: Seq<ValidatorRecordView>,
    pub total_stake_lamports: nat,
}

impl View for Candidate {
    type V = CandidateView;

    open spec fn view(&self) -> CandidateView {
        CandidateView {
            address: self.address@,
            identities: views(self.identities@),
            staked_identities: views(self.staked_identities@),
            validators: views(self.validators@),
            total_stake_lamports: self.total_stake_lamports as nat,
        }
    }
}

/// The identities of the staked sightings among `entries`, in order, repeats
/// included.
pub open spec fn staked_sequence(entries: Seq<SightingView>) -> Seq<Seq<char>>
    decreases entries.len(),
{
    if entries.len() == 0 {
        Seq::empty()
    } else if entries.last().is_staked {
        staked_sequence(entries.drop_last()).push(entries.last().identity)
    } else {
        staked_sequence(entries.drop_last())
    }
}

/// The distinct staked identities among `entries`, in the order in which they
/// first appear.
pub open spec fn staked_identities_of(entries: Seq<SightingView>) -> Seq<Seq<char>> {
    distinct(staked_sequence(entries))
}

/// The records that `records` holds for `identities`, in the order of
/// `identities`; an identity without a record is passed over.
pub open spec fn records_for(records: Seq<ValidatorRecordView>, identities: Seq<Seq<char>>) -> Seq<
    ValidatorRecordView,
>
    decreases identities.len(),
{
    if identities.len() == 0 {
        Seq::empty()
    } else {
        let earlier = records_for(records, identities.drop_last());
        match record_for(records, identities.last()) {
            Some(record) => earlier.push(record),
            None => earlier,
        }
    }
}

/// The activated stake of `validators`, summed.
pub open spec fn total_stake(validators: Seq<ValidatorRecordView>) -> nat
    decreases validators.len(),
{
    if validators.len() == 0 {
        0
    } else {
        total_stake(validators.drop_last()) + validators.last().activated_stake_lamports as nat
    }
}

/// A history makes its address a candidate when it is marked and holds two
/// or more distinct staked identities.
pub open spec fn is_candidate(history: AddressHistoryView) -> bool {
    history.flagged && staked_identities_of(history.entries).len() >= 2
}

/// The candidate that a history gives.
pub open spec fn candidate_of(
    history: AddressHistoryView,
    records: Seq<ValidatorRecordView>,
) -> CandidateView {
    let staked = staked_identities_of(history.entries);
    let validators = records_for(records, staked);
    CandidateView {
        address: history.address,
        identities: history.entries,
        staked_identities: staked,
        validators,
        total_stake_lamports: total_stake(validators),
    }
}

/// The candidates among `histories`, in the order of the histories.
pub open spec fn candidates_of(
    histories: Seq<AddressHistoryView>,
    records: Seq<ValidatorRecordView>,
) -> Seq<CandidateView>
    decreases histories.len(),
{
    if histories.len() == 0 {
        Seq::empty()
    } else {
        let earlier = candidates_of(histories.drop_last(), records);
        if is_candidate(histories.last()) {
            earlier.push(candidate_of(histories.last(), records))
        } else {
            earlier
        }
    }
}

/// A sum of stakes is at most as many times the largest stake as there are
/// validators.
pub proof fn lemma_total_stake_bound(validators: Seq<ValidatorRecordView>)
    ensures
        total_stake(validators) <= validators.len() * u64::MAX,
    decreases validators.len(),
{
    if validators.len() > 0 {
        lemma_total_stake_bound(validators.drop_last());
        assert((validators.len() - 1) * u64::MAX + u64::MAX == validators.len() * u64::MAX)
            by (nonlinear_arith);
    }
}

/// The distinct staked identities among `entries`, in the order in which they
/// first appear.
pub fn staked_identity_set(entries: &Vec<Sighting>) -> (staked: Vec<String>)
    ensures
        views(staked@) == staked_identities_of(views(entries@)),
{
    let ghost sightings = views(entries@);
    let mut staked: Vec<String> = Vec::new();
    let mut i: usize = 0;
    proof {
        assert(sightings.take(0) =~= Seq::empty());
        assert(views(staked@) =~= Seq::empty());
    }
    while i < entries.len()
        invariant
            i <= entries.len(),
            sightings == views(entries@),
            views(staked@) == staked_identities_of(sightings.take(i as int)),
        decreases entries.len() - i,
    {
        proof {
            assert(sightings.take(i + 1).drop_last() =~= sightings.take(i as int));
            assert(sightings.take(i + 1).last() == entries[i as int]@);
            if entries[i as int].is_staked {
                assert(staked_sequence(sightings.take(i + 1)).drop_last() =~= staked_sequence(
                    sightings.take(i as int),
                ));
            }
        }
        if entries[i].is_staked {
            push_distinct(&mut staked, &entries[i].identity);
        }
        i += 1;
    }
    proof {
        assert(sightings.take(entries.len() as int) =~= sightings);
    }
    staked
}

/// Copies of the records that the registry holds for `identities`.
pub fn lookup_validators(registry: &Registry, identities: &Vec<String>) -> (validators: Vec<
    ValidatorRecord,
>)
    ensures
        views(validators@) == records_for(registry@, views(identities@)),
{
    let ghost wanted = views(identities@);
    let mut validators: Vec<ValidatorRecord> = Vec::new();
    let mut i: usize = 0;
    proof {
        assert(wanted.take(0) =~= Seq::empty());
        assert(views(validators@) =~= Seq::empty());
    }
    while i < identities.len()
        invariant
            i <= identities.len(),
            wanted == views(identities@),
            views(validators@) == records_for(registry@, wanted.take(i as int)),
        decreases identities.len() - i,
    {
        proof {
            assert(wanted.take(i + 1).drop_last() =~= wanted.take(i as int));
            assert(wanted.take(i + 1).last() == identities[i as int]@);
        }
        match registry.get(&identities[i]) {
            Some(record) => {
                let copy = record.clone();
                proof {
                    lemma_views_push(validators@, copy);
                }
                validators.push(copy);
            },
            None => {},
        }
        i += 1;
    }
    proof {
        assert(wanted.take(identities.len() as int) =~= wanted);
    }
    validators
}

/// The activated stake of `validators`, summed. The sum of as many `u64` as a
/// vector can hold fits in a `u128`.
pub fn sum_stake(validators: &Vec<ValidatorRecord>) -> (total: u128)
    ensures
        total == total_stake(views(validators@)),
{
    let ghost records = views(validators@);
    let mut total: u128 = 0;
    let mut i: usize = 0;
    proof {
        assert(records.take(0) =~= Seq::empty());
    }
    while i < validators.len()
        invariant
            i <= validators.len(),
            records == views(validators@),
            total == total_stake(records.take(i as int)),
        decreases validators.len() - i,
    {
        proof {
            assert(records.take(i + 1).drop_last() =~= records.take(i as int));
            assert(records.take(i + 1).last() == validators[i as int]@);
            lemma_total_stake_bound(records.take(i + 1));
            assert((i + 1) * u64::MAX <= u64::MAX * u64::MAX) by (nonlinear_arith)
                requires
                    0 <= i + 1 <= u64::MAX,
            ;
        }
        total = total + validators[i].activated_stake_lamports as u128;
        i += 1;
    }
    proof {
        assert(records.take(validators.len() as int) =~= records);
    }
    total
}

/// Whether a history makes its address a candidate.
pub fn is_candidate_history(history: &AddressHistory) -> (candidate: bool)
    ensures
        candidate == is_candidate(history@),
{
    history.flagged && staked_identity_set(&history.entries).len() >= 2
}

/// The candidate that a history gives, with copies of the records that the
/// registry holds for its staked identities.
pub fn make_candidate(history: &AddressHistory, registry: &Registry) -> (candidate: Candidate)
    ensures
        candidate@ == candidate_of(history@, registry@),
{
    let staked_identities = staked_identity_set(&history.entries);
    let validators = lookup_validators(registry, &staked_identities);
    let total_stake_lamports = sum_stake(&validators);
    let mut identities: Vec<Sighting> = Vec::new();
    let mut i: usize = 0;
    while i < history.entries.len()
        invariant
            i <= history.entries.len(),
            views(identities@) == views(history.entries@).take(i as int),
        decreases history.entries.len() - i,
    {
        let copy = history.entries[i].clone();
        proof {
            lemma_views_push(identities@, copy);
            assert(views(history.entries@).take(i as int).push(copy@) =~= views(
                history.entries@,
            ).take(i + 1));
        }
        identities.push(copy);
        i += 1;
    }
    proof {
        assert(views(history.entries@).take(history.entries.len() as int) =~= views(
            history.entries@,
        ));
    }
    Candidate {
        address: history.address.clone(),
        identities,
        staked_identities,
        validators,
        total_stake_lamports,
    }
}

/// Keeps the histories that are marked and hold two or more distinct staked
/// identities, each as a candidate.
pub fn filter_candidates(histories: &Vec<AddressHistory>, registry: &Registry) -> (candidates: Vec<
    Candidate,
>)
    ensures
        views(candidates@) == candidates_of(views(histories@), registry@),
{
    let ghost all = views(histories@);
    let mut candidates: Vec<Candidate> = Vec::new();
    let mut k: usize = 0;
    proof {
        assert(all.take(0) =~= Seq::empty());
        assert(views(candidates@) =~= Seq::empty());
    }
    while k < histories.len()
        invariant
            k <= histories.len(),
            all == views(histories@),
            views(candidates@) == candidates_of(all.take(k as int), registry@),
        decreases histories.len() - k,
    {
        proof {
            assert(all.take(k + 1).drop_last() =~= all.take(k as int));
            assert(all.take(k + 1).last() == histories[k as int]@);
        }
        if is_candidate_history(&histories[k]) {
            let candidate = make_candidate(&histories[k], registry);
            proof {
                lemma_views_push(candidates@, candidate);
            }
            candidates.push(candidate);
        }
        k += 1;
    }
    proof {
        assert(all.take(histories.len() as int) =~= all);
    }
    candidates
}

/// Some staked sighting among `entries` carries `identity`.
pub open spec fn has_staked_sighting(entries: Seq<SightingView>, identity: Seq<char>) -> bool {
    exists|m: int|
        0 <= m < entries.len() && (#[trigger] entries[m]).is_staked && entries[m].identity
            == identity
}

/// The staked identities of a history are those of its staked sightings, each
/// once.
pub proof fn lemma_staked_identities(entries: Seq<SightingView>)
    ensures
        staked_identities_of(entries).no_duplicates(),
        forall|identity: Seq<char>|
            staked_identities_of(entries).contains(identity) <==> has_staked_sighting(
                entries,
                identity,
            ),
{
    lemma_distinct_properties(staked_sequence(entries));
    lemma_staked_sequence(entries);
}

/// The staked sequence holds exactly the identities of the staked sightings.
proof fn lemma_staked_sequence(entries: Seq<SightingView>)
    ensures
        forall|identity: Seq<char>|
            staked_sequence(entries).contains(identity) <==> has_staked_sighting(entries, identity),
    decreases entries.len(),
{
    if entries.len() > 0 {
        let init = entries.drop_last();
        let last = entries.last();
        lemma_staked_sequence(init);
        assert forall|identity: Seq<char>|
            staked_sequence(entries).contains(identity) implies has_staked_sighting(
            entries,
            identity,
        ) by {
            let k = staked_sequence(entries).index_of(identity);
            if k < staked_sequence(init).len() {
                assert(staked_sequence(init)[k] == identity);
                assert(staked_sequence(init).contains(identity));
                assert(has_staked_sighting(init, identity));
                let m = choose|m: int|
                    0 <= m < init.len() && (#[trigger] init[m]).is_staked && init[m].identity
                        == identity;
                assert(entries[m] == init[m]);
            } else {
                assert(entries[entries.len() - 1] == last);
            }
        }
        assert forall|identity: Seq<char>|
            has_staked_sighting(entries, identity) implies staked_sequence(entries).contains(
            identity,
        ) by {
            let m = choose|m: int|
                0 <= m < entries.len() && (#[trigger] entries[m]).is_staked && entries[m].identity
                    == identity;
            if m < init.len() {
                assert(init[m] == entries[m]);
                assert(has_staked_sighting(init, identity));
                let k = staked_sequence(init).index_of(identity);
                assert(staked_sequence(entries)[k] == identity);
            } else {
                assert(staked_sequence(entries)[staked_sequence(init).len() as int] == identity);
            }
        }
    }
}

/// Every record found is one of `records` and carries one of the identities
/// asked for. Where `records` holds all of them, there is one record for each,
/// in their order.
pub proof fn lemma_records_for(records: Seq<ValidatorRecordView>, wanted: Seq<Seq<char>>)
    ensures
        forall|k: int|
            0 <= k < records_for(records, wanted).len() ==> records.contains(
                #[trigger] records_for(records, wanted)[k],
            ) && wanted.contains(records_for(records, wanted)[k].identity),
        (forall|i: int| 0 <= i < wanted.len() ==> is_staked(records, #[trigger] wanted[i]))
            ==> identities(records_for(records, wanted)) == wanted,
    decreases wanted.len(),
{
    let found = records_for(records, wanted);
    if wanted.len() > 0 {
        let init = wanted.drop_last();
        let earlier = records_for(records, init);
        lemma_records_for(records, init);
        lemma_first_index(identities(records), wanted.last());
        assert forall|k: int| 0 <= k < found.len() implies records.contains(#[trigger] found[k])
            && wanted.contains(found[k].identity) by {
            if k < earlier.len() {
                assert(found[k] == earlier[k]);
                let i = init.index_of(earlier[k].identity);
                assert(wanted[i] == init[i]);
            } else {
                let at = first_index(identities(records), wanted.last()).unwrap();
                assert(records[at] == found[k]);
                assert(wanted[wanted.len() - 1] == found[k].identity);
            }
        }
        if forall|i: int| 0 <= i < wanted.len() ==> is_staked(records, #[trigger] wanted[i]) {
            assert forall|i: int| 0 <= i < init.len() implies is_staked(
                records,
                #[trigger] init[i],
            ) by {
                assert(init[i] == wanted[i]);
            }
            assert(is_staked(records, wanted[wanted.len() - 1]));
            let at = first_index(identities(records), wanted.last()).unwrap();
            assert(identities(records)[at] == wanted.last());
            assert(found == earlier.push(records[at]));
            assert forall|k: int| 0 <= k < wanted.len() implies identities(found)[k]
                == wanted[k] by {
                if k < init.len() {
                    assert(identities(earlier)[k] == init[k]);
                }
            }
            assert(identities(found) =~= wanted);
        }
    } else {
        assert(identities(found) =~= wanted);
    }
}

/// `candidate` is what one of `histories` gives, and that history makes a
/// candidate.
pub open spec fn is_candidate_from(
    candidate: CandidateView,
    histories: Seq<AddressHistoryView>,
    records: Seq<ValidatorRecordView>,
) -> bool {
    exists|k: int|
        0 <= k < histories.len() && is_candidate(#[trigger] histories[k]) && candidate
            == candidate_of(histories[k], records)
}

/// An address is among the candidates exactly when a history of it is marked
/// and holds two or more distinct staked identities: one staked identity is
/// not enough, marked or not.
pub proof fn lemma_candidate_threshold(
    histories: Seq<AddressHistoryView>,
    records: Seq<ValidatorRecordView>,
)
    ensures
        forall|k: int|
            0 <= k < histories.len() && is_candidate(#[trigger] histories[k])
                ==> candidates_of(histories, records).contains(
                candidate_of(histories[k], records),
            ),
        forall|m: int|
            0 <= m < candidates_of(histories, records).len() ==> is_candidate_from(
                #[trigger] candidates_of(histories, records)[m],
                histories,
                records,
            ),
    decreases histories.len(),
{
    let candidates = candidates_of(histories, records);
    if histories.len() > 0 {
        let init = histories.drop_last();
        let earlier = candidates_of(init, records);
        lemma_candidate_threshold(init, records);
        assert forall|k: int|
            0 <= k < histories.len() && is_candidate(
                #[trigger] histories[k],
            ) implies candidates.contains(candidate_of(histories[k], records)) by {
            if k < init.len() {
                assert(init[k] == histories[k]);
                let m = earlier.index_of(candidate_of(init[k], records));
                assert(candidates[m] == earlier[m]);
            } else {
                assert(candidates[earlier.len() as int] == candidate_of(histories[k], records));
            }
        }
        assert forall|m: int| 0 <= m < candidates.len() implies is_candidate_from(
            #[trigger] candidates[m],
            histories,
            records,
        ) by {
            if m < earlier.len() {
                assert(is_candidate_from(earlier[m], init, records));
                let k = choose|k: int|
                    0 <= k < init.len() && is_candidate(#[trigger] init[k]) && earlier[m]
                        == candidate_of(init[k], records);
                assert(histories[k] == init[k]);
            } else {
                assert(is_candidate(histories[histories.len() - 1]));
            }
        }
    }
}

/// The addresses of `candidates`, in order.
pub open spec fn candidate_addresses(candidates: Seq<CandidateView>) -> Seq<Seq<char>> {
    Seq::new(candidates.len(), |i: int| candidates[i].address)
}

/// Where no two histories are of one address, no two candidates are.
pub proof fn lemma_candidate_addresses_distinct(
    histories: Seq<AddressHistoryView>,
    records: Seq<ValidatorRecordView>,
)
    requires
        history_addresses(histories).no_duplicates(),
    ensures
        candidate_addresses(candidates_of(histories, records)).no_duplicates(),
    decreases histories.len(),
{
    let candidates = candidates_of(histories, records);
    if histories.len() > 0 {
        let init = histories.drop_last();
        let last = histories.last();
        let earlier = candidates_of(init, records);
        assert(history_addresses(init).no_duplicates()) by {
            assert forall|i: int, j: int|
                0 <= i < init.len() && 0 <= j < init.len() && i != j implies history_addresses(
                init,
            )[i] != history_addresses(init)[j] by {
                assert(history_addresses(histories)[i] == init[i].address);
                assert(history_addresses(histories)[j] == init[j].address);
            }
        }
        lemma_candidate_addresses_distinct(init, records);
        lemma_candidate_threshold(init, records);
        if is_candidate(last) {
            assert forall|i: int, j: int|
                0 <= i < candidates.len() && 0 <= j < candidates.len() && i
                    != j implies candidate_addresses(candidates)[i] != candidate_addresses(
                candidates,
            )[j] by {
                let n = earlier.len() as int;
                if i < n && j < n {
                    assert(candidate_addresses(earlier)[i] == candidates[i].address);
                    assert(candidate_addresses(earlier)[j] == candidates[j].address);
                } else {
                    let m = if i < n {
                        i
                    } else {
                        j
                    };
                    assert(is_candidate_from(earlier[m], init, records));
                    let k = choose|k: int|
                        0 <= k < init.len() && is_candidate(#[trigger] init[k]) && earlier[m]
                            == candidate_of(init[k], records);
                    assert(history_addresses(histories)[k] == init[k].address);
                    assert(history_addresses(histories)[histories.len() - 1] == last.address);
                }
            }
        }
    }
}

/// A candidate is consistent with `records` when each of its staked
/// identities has a record there and its validators are those records, one
/// for each staked identity, in their order.
pub open spec fn candidate_within(
    candidate: CandidateView,
    records: Seq<ValidatorRecordView>,
) -> bool {
    &&& candidate.staked_identities.no_duplicates()
    &&& forall|i: int|
        0 <= i < candidate.staked_identities.len() ==> is_staked(
            records,
            #[trigger] candidate.staked_identities[i],
        )
    &&& identities(candidate.validators) == candidate.staked_identities
    &&& forall|k: int|
        0 <= k < candidate.validators.len() ==> records.contains(#[trigger] candidate.validators[k])
    &&& candidate.total_stake_lamports == total_stake(candidate.validators)
}

/// The candidate of a history whose sightings carry the mark of `records` is
/// consistent with `records`, and has two staked identities or more where the
/// history makes a candidate.
pub proof fn lemma_candidate_of(history: AddressHistoryView, records: Seq<ValidatorRecordView>)
    requires
        tagged_by(history.entries, records),
    ensures
        candidate_within(candidate_of(history, records), records),
        is_candidate(history) ==> candidate_of(history, records).staked_identities.len() >= 2,
{
    let staked = staked_identities_of(history.entries);
    lemma_staked_identities(history.entries);
    assert forall|i: int| 0 <= i < staked.len() implies is_staked(
        records,
        #[trigger] staked[i],
    ) by {
        assert(staked.contains(staked[i]));
        assert(has_staked_sighting(history.entries, staked[i]));
    }
    lemma_records_for(records, staked);
}

} // verus!
