//! Clusters: each connected component of the candidate graph merged into one
//! record of a suspected operator.

use crate::candidate::{
    candidate_addresses, sum_stake, total_stake, Candidate, CandidateView,
};
use crate::component::{
    component_count, component_of, connected, connected_components, lemma_components_partition,
};
use crate::history::{Sighting, SightingView};
use crate::names::{
    add_name, add_names, extend_distinct, lemma_add_names, lemma_views_push, push_distinct, views,
};
use crate::registry::{find_record, identities, ValidatorRecord, ValidatorRecordView};
use vstd::prelude::*;

verus! {

/// One suspected operator.
#[derive(Debug, PartialEq, Eq)]
pub struct Cluster {
    /// The candidate addresses of the component, each once.
    pub addresses: Vec<String>,
    /// The histories of those addresses, one after the other.
    pub identities: Vec<Sighting>,
    /// The staked identities seen at those addresses, each once.
    pub staked_identities: Vec<String>,
    /// One record for each identity that the candidates carry a record of.
    pub validators: Vec<ValidatorRecord>,
    /// The activated stake of `validators`, summed.
    pub total_stake_lamports: u128,
}

/// A cluster, as contracts see it.
pub struct ClusterView {
    pub addresses: Seq<Seq<char>>,
    pub identities: Seq<SightingView>,
    pub staked_identities: Seq<Seq<char>>,
    pub validators: Seq<ValidatorRecordView>,
    pub total_stake_lamports: nat,
}

impl View for Cluster {
    type V = ClusterView;

    open spec fn view(&self) -> ClusterView {
        ClusterView {
            addresses: views(self.addresses@),
            identities: views(self.identities@),
            staked_identities: views(self.staked_identities@),
            validators: views(self.validators@),
            total_stake_lamports: self.total_stake_lamports as nat,
        }
    }
}

/// `records` with the records of `more` added in order, each unless a record
/// of its identity is there already: the first record of an identity stays.
pub open spec fn add_records(
    records: Seq<ValidatorRecordView>,
    more: Seq<ValidatorRecordView>,
) -> Seq<ValidatorRecordView>
    decreases more.len(),
{
    if more.len() == 0 {
        records
    } else {
        let earlier = add_records(records, more.drop_last());
        if identities(earlier).contains(more.last().identity) {
            earlier
        } else {
            earlier.push(more.last())
        }
    }
}

/// The cluster of no candidate.
pub open spec fn empty_cluster() -> ClusterView {
    ClusterView {
        addresses: Seq::empty(),
        identities: Seq::empty(),
        staked_identities: Seq::empty(),
        validators: Seq::empty(),
        total_stake_lamports: 0,
    }
}

/// `cluster` with one more candidate merged into it: the address and the
/// staked identities join those of the cluster unless they are there, the
/// sightings follow those of the cluster, a record joins unless the cluster
/// has one of the same identity, and the stake is that of the records.
pub open spec fn absorbed(cluster: ClusterView, candidate: CandidateView) -> ClusterView {
    let validators = add_records(cluster.validators, candidate.validators);
    ClusterView {
        addresses: add_name(cluster.addresses, candidate.address),
        identities: cluster.identities + candidate.identities,
        staked_identities: add_names(cluster.staked_identities, candidate.staked_identities),
        validators,
        total_stake_lamports: total_stake(validators),
    }
}

/// Component `c` merged from the candidates below `n`, in their order.
pub open spec fn merged_below(candidates: Seq<CandidateView>, c: nat, n: int) -> ClusterView
    decreases n,
{
    if n <= 0 {
        empty_cluster()
    } else if component_of(candidates, n - 1) == c {
        absorbed(merged_below(candidates, c, n - 1), candidates[n - 1])
    } else {
        merged_below(candidates, c, n - 1)
    }
}

/// The cluster of component `c`.
pub open spec fn cluster_of(candidates: Seq<CandidateView>, c: nat) -> ClusterView {
    merged_below(candidates, c, candidates.len() as int)
}

/// The clusters of `candidates`: one for each component, in the order of the
/// components, which is that of their lowest members.
pub open spec fn clusters_of(candidates: Seq<CandidateView>) -> Seq<ClusterView> {
    Seq::new(component_count(candidates), |c: int| cluster_of(candidates, c as nat))
}

/// Appends a copy of each record of `more` whose identity has no record in
/// `records` yet.
pub fn extend_records(records: &mut Vec<ValidatorRecord>, more: &Vec<ValidatorRecord>)
    ensures
        views(final(records)@) == add_records(views(old(records)@), views(more@)),
{
    let ghost initial = views(records@);
    let ghost added = views(more@);
    let mut i: usize = 0;
    proof {
        assert(added.take(0) =~= Seq::empty());
    }
    while i < more.len()
        invariant
            i <= more.len(),
            added == views(more@),
            views(records@) == add_records(initial, added.take(i as int)),
        decreases more.len() - i,
    {
        proof {
            assert(added.take(i + 1).drop_last() =~= added.take(i as int));
        }
        if find_record(records, &more[i].identity).is_none() {
            let copy = more[i].clone();
            proof {
                lemma_views_push(records@, copy);
            }
            records.push(copy);
        }
        i += 1;
    }
    proof {
        assert(added.take(more.len() as int) =~= added);
    }
}

impl Cluster {
    /// The cluster of no candidate.
    pub fn new() -> (cluster: Self)
        ensures
            cluster@ == empty_cluster(),
    {
        let cluster = Cluster {
            addresses: Vec::new(),
            identities: Vec::new(),
            staked_identities: Vec::new(),
            validators: Vec::new(),
            total_stake_lamports: 0,
        };
        proof {
            assert(cluster@.addresses =~= Seq::empty());
            assert(cluster@.identities =~= Seq::empty());
            assert(cluster@.staked_identities =~= Seq::empty());
            assert(cluster@.validators =~= Seq::empty());
        }
        cluster
    }

    /// Merges one more candidate into the cluster.
    pub fn absorb(&mut self, candidate: &Candidate)
        ensures
            final(self)@ == absorbed(old(self)@, candidate@),
    {
        let ghost before = self@;
        push_distinct(&mut self.addresses, &candidate.address);
        let mut i: usize = 0;
        proof {
            assert(before.identities + views(candidate.identities@).take(0) =~= before.identities);
        }
        while i < candidate.identities.len()
            invariant
                i <= candidate.identities.len(),
                views(self.identities@) == before.identities + views(candidate.identities@).take(
                    i as int,
                ),
                views(self.addresses@) == add_name(before.addresses, candidate@.address),
                views(self.staked_identities@) == before.staked_identities,
                views(self.validators@) == before.validators,
            decreases candidate.identities.len() - i,
        {
            let copy = candidate.identities[i].clone();
            proof {
                lemma_views_push(self.identities@, copy);
                assert((before.identities + views(candidate.identities@).take(i as int)).push(
                    copy@,
                ) =~= before.identities + views(candidate.identities@).take(i + 1));
            }
            self.identities.push(copy);
            i += 1;
        }
        proof {
            assert(views(candidate.identities@).take(candidate.identities.len() as int) =~= views(
                candidate.identities@,
            ));
        }
        extend_distinct(&mut self.staked_identities, &candidate.staked_identities);
        extend_records(&mut self.validators, &candidate.validators);
        self.total_stake_lamports = sum_stake(&self.validators);
    }
}

/// Merges the candidates of each connected component into one cluster.
/// Candidates are connected when a chain of shared staked identities leads
/// from one to the other.
pub fn cluster_candidates(candidates: &Vec<Candidate>) -> (clusters: Vec<Cluster>)
    ensures
        views(clusters@) == clusters_of(views(candidates@)),
{
    let ghost graph = views(candidates@);
    let components = connected_components(candidates);
    let n = candidates.len();
    let mut clusters: Vec<Cluster> = Vec::new();
    let mut c: usize = 0;
    while c < components.count
        invariant
            n == candidates.len(),
            graph == views(candidates@),
            components.labels.len() == n,
            forall|i: int|
                0 <= i < n ==> (#[trigger] components.labels[i]) == component_of(graph, i),
            components.count == component_count(graph),
            c <= components.count,
            clusters.len() == c,
            forall|k: int| 0 <= k < c ==> (#[trigger] clusters[k])@ == cluster_of(graph, k as nat),
        decreases components.count - c,
    {
        let mut cluster = Cluster::new();
        let mut i: usize = 0;
        while i < n
            invariant
                n == candidates.len(),
                graph == views(candidates@),
                components.labels.len() == n,
                forall|i: int|
                    0 <= i < n ==> (#[trigger] components.labels[i]) == component_of(graph, i),
                i <= n,
                cluster@ == merged_below(graph, c as nat, i as int),
            decreases n - i,
        {
            if components.labels[i] == c {
                cluster.absorb(&candidates[i]);
            }
            i += 1;
        }
        clusters.push(cluster);
        c += 1;
    }
    proof {
        assert(views(clusters@) =~= clusters_of(graph));
    }
    clusters
}

/// Adding records keeps what was there in its place, never adds a second
/// record of an identity, and takes every record it adds from `more`.
pub proof fn lemma_add_records(records: Seq<ValidatorRecordView>, more: Seq<ValidatorRecordView>)
    ensures
        records.is_prefix_of(add_records(records, more)),
        identities(records).no_duplicates() ==> identities(
            add_records(records, more),
        ).no_duplicates(),
        forall|identity: Seq<char>|
            identities(add_records(records, more)).contains(identity) <==> identities(
                records,
            ).contains(identity) || identities(more).contains(identity),
        forall|k: int|
            0 <= k < add_records(records, more).len() ==> records.contains(
                #[trigger] add_records(records, more)[k],
            ) || more.contains(add_records(records, more)[k]),
    decreases more.len(),
{
    let all = add_records(records, more);
    if more.len() > 0 {
        let init = more.drop_last();
        let last = more.last();
        let earlier = add_records(records, init);
        lemma_add_records(records, init);
        assert(identities(more)[more.len() - 1] == last.identity);
        if !identities(earlier).contains(last.identity) {
            assert(identities(all) =~= identities(earlier).push(last.identity));
        }
        assert forall|identity: Seq<char>|
            identities(all).contains(identity) implies identities(records).contains(identity)
            || identities(more).contains(identity) by {
            let k = identities(all).index_of(identity);
            if k < earlier.len() {
                assert(identities(earlier)[k] == identity);
                assert(identities(earlier).contains(identity));
                if identities(init).contains(identity) {
                    let i = identities(init).index_of(identity);
                    assert(identities(more)[i] == identity);
                }
            }
        }
        assert forall|identity: Seq<char>|
            identities(records).contains(identity) || identities(more).contains(
                identity,
            ) implies identities(all).contains(identity) by {
            if identity == last.identity {
                if identities(earlier).contains(identity) {
                    let k = identities(earlier).index_of(identity);
                    assert(identities(all)[k] == identity);
                } else {
                    assert(identities(all)[earlier.len() as int] == identity);
                }
            } else {
                if identities(more).contains(identity) {
                    let i = identities(more).index_of(identity);
                    assert(identities(init)[i] == identity);
                    assert(identities(init).contains(identity));
                }
                assert(identities(earlier).contains(identity));
                let k = identities(earlier).index_of(identity);
                assert(identities(all)[k] == identity);
            }
        }
        assert forall|k: int| 0 <= k < all.len() implies records.contains(#[trigger] all[k])
            || more.contains(all[k]) by {
            if k < earlier.len() {
                assert(all[k] == earlier[k]);
                if init.contains(earlier[k]) {
                    let i = init.index_of(earlier[k]);
                    assert(more[i] == earlier[k]);
                }
            } else {
                assert(more[more.len() - 1] == all[k]);
            }
        }
    }
}

/// Candidate `i` belongs to component `c`.
pub open spec fn is_member(candidates: Seq<CandidateView>, c: nat, i: int) -> bool {
    0 <= i < candidates.len() && component_of(candidates, i) == c
}

/// A member of component `c` below `n` stands at `address`.
pub open spec fn address_below(
    candidates: Seq<CandidateView>,
    c: nat,
    n: int,
    address: Seq<char>,
) -> bool {
    exists|i: int|
        0 <= i < n && #[trigger] is_member(candidates, c, i) && candidates[i].address == address
}

/// A member of component `c` below `n` has `identity` among its staked
/// identities.
pub open spec fn staked_below(
    candidates: Seq<CandidateView>,
    c: nat,
    n: int,
    identity: Seq<char>,
) -> bool {
    exists|i: int|
        0 <= i < n && #[trigger] is_member(candidates, c, i)
            && candidates[i].staked_identities.contains(identity)
}

/// A member of component `c` below `n` carries `record`.
pub open spec fn record_below(
    candidates: Seq<CandidateView>,
    c: nat,
    n: int,
    record: ValidatorRecordView,
) -> bool {
    exists|i: int|
        0 <= i < n && #[trigger] is_member(candidates, c, i) && candidates[i].validators.contains(
            record,
        )
}

/// A member of component `c` below `n` carries a record of `identity`.
pub open spec fn validator_below(
    candidates: Seq<CandidateView>,
    c: nat,
    n: int,
    identity: Seq<char>,
) -> bool {
    exists|i: int|
        0 <= i < n && #[trigger] is_member(candidates, c, i) && identities(
            candidates[i].validators,
        ).contains(identity)
}

/// What a merged component holds: the addresses of its members and their
/// staked identities, each once; of the records of its members one for each
/// identity; and as its stake the stake of those records.
pub proof fn lemma_merged_below(candidates: Seq<CandidateView>, c: nat, n: int)
    requires
        0 <= n <= candidates.len(),
    ensures
        merged_below(candidates, c, n).addresses.no_duplicates(),
        merged_below(candidates, c, n).staked_identities.no_duplicates(),
        identities(merged_below(candidates, c, n).validators).no_duplicates(),
        merged_below(candidates, c, n).total_stake_lamports == total_stake(
            merged_below(candidates, c, n).validators,
        ),
        forall|address: Seq<char>|
            merged_below(candidates, c, n).addresses.contains(address) <==> address_below(
                candidates,
                c,
                n,
                address,
            ),
        forall|identity: Seq<char>|
            merged_below(candidates, c, n).staked_identities.contains(identity) <==> staked_below(
                candidates,
                c,
                n,
                identity,
            ),
        forall|identity: Seq<char>|
            identities(merged_below(candidates, c, n).validators).contains(identity)
                <==> validator_below(candidates, c, n, identity),
        forall|k: int|
            0 <= k < merged_below(candidates, c, n).validators.len() ==> record_below(
                candidates,
                c,
                n,
                #[trigger] merged_below(candidates, c, n).validators[k],
            ),
    decreases n,
{
    let cluster = merged_below(candidates, c, n);
    if n > 0 {
        let earlier = merged_below(candidates, c, n - 1);
        let last = candidates[n - 1];
        lemma_merged_below(candidates, c, n - 1);
        assert forall|address: Seq<char>|
            #![trigger address_below(candidates, c, n, address)]
            address_below(candidates, c, n, address) <==> address_below(
                candidates,
                c,
                n - 1,
                address,
            ) || (is_member(candidates, c, n - 1) && last.address == address) by {
            if address_below(candidates, c, n - 1, address) {
                let i = choose|i: int|
                    0 <= i < n - 1 && #[trigger] is_member(candidates, c, i)
                        && candidates[i].address == address;
                assert(is_member(candidates, c, i));
            }
        }
        assert forall|identity: Seq<char>|
            #![trigger staked_below(candidates, c, n, identity)]
            staked_below(candidates, c, n, identity) <==> staked_below(
                candidates,
                c,
                n - 1,
                identity,
            ) || (is_member(candidates, c, n - 1) && last.staked_identities.contains(identity)) by {
            if staked_below(candidates, c, n - 1, identity) {
                let i = choose|i: int|
                    0 <= i < n - 1 && #[trigger] is_member(candidates, c, i)
                        && candidates[i].staked_identities.contains(identity);
                assert(is_member(candidates, c, i));
            }
        }
        assert forall|identity: Seq<char>|
            #![trigger validator_below(candidates, c, n, identity)]
            validator_below(candidates, c, n, identity) <==> validator_below(
                candidates,
                c,
                n - 1,
                identity,
            ) || (is_member(candidates, c, n - 1) && identities(last.validators).contains(
                identity,
            )) by {
            if validator_below(candidates, c, n - 1, identity) {
                let i = choose|i: int|
                    0 <= i < n - 1 && #[trigger] is_member(candidates, c, i) && identities(
                        candidates[i].validators,
                    ).contains(identity);
                assert(is_member(candidates, c, i));
            }
        }
        assert forall|record: ValidatorRecordView|
            #![trigger record_below(candidates, c, n, record)]
            record_below(candidates, c, n - 1, record) || (is_member(candidates, c, n - 1)
                && last.validators.contains(record)) implies record_below(
            candidates,
            c,
            n,
            record,
        ) by {
            if record_below(candidates, c, n - 1, record) {
                let i = choose|i: int|
                    0 <= i < n - 1 && #[trigger] is_member(candidates, c, i)
                        && candidates[i].validators.contains(record);
                assert(is_member(candidates, c, i));
            }
        }
        if is_member(candidates, c, n - 1) {
            lemma_add_names(earlier.staked_identities, last.staked_identities);
            lemma_add_records(earlier.validators, last.validators);
            let addresses = add_name(earlier.addresses, last.address);
            assert forall|address: Seq<char>|
                addresses.contains(address) <==> earlier.addresses.contains(address)
                    || last.address == address by {
                if earlier.addresses.contains(address) {
                    let k = earlier.addresses.index_of(address);
                    assert(addresses[k] == address);
                }
                if last.address == address && !earlier.addresses.contains(address) {
                    assert(addresses[earlier.addresses.len() as int] == address);
                }
            }
            assert forall|k: int| 0 <= k < cluster.validators.len() implies record_below(
                candidates,
                c,
                n,
                #[trigger] cluster.validators[k],
            ) by {
                let record = cluster.validators[k];
                if earlier.validators.contains(record) {
                    let m = earlier.validators.index_of(record);
                    assert(record_below(candidates, c, n - 1, earlier.validators[m]));
                }
            }
        }
    }
}

/// The cluster of a component holds each record's stake once: no two of its
/// records are of one identity, however many of its candidates carry a record
/// of that identity, and its stake is the sum over its records.
pub proof fn lemma_stake_counted_once(candidates: Seq<CandidateView>, c: nat)
    ensures
        identities(cluster_of(candidates, c).validators).no_duplicates(),
        cluster_of(candidates, c).total_stake_lamports == total_stake(
            cluster_of(candidates, c).validators,
        ),
{
    lemma_merged_below(candidates, c, candidates.len() as int);
}

/// The clusters partition the candidates: the address of a candidate is in
/// the cluster of its component, and, where no two candidates are of one
/// address, in no other cluster. Two candidates are in one cluster exactly
/// when they are connected.
pub proof fn lemma_clusters_partition(candidates: Seq<CandidateView>, i: int, c: nat)
    requires
        0 <= i < candidates.len(),
    ensures
        component_of(candidates, i) < component_count(candidates),
        cluster_of(candidates, component_of(candidates, i)).addresses.contains(
            candidates[i].address,
        ),
        candidate_addresses(candidates).no_duplicates() && cluster_of(
            candidates,
            c,
        ).addresses.contains(candidates[i].address) ==> c == component_of(candidates, i),
        forall|j: int|
            0 <= j < candidates.len() ==> (component_of(candidates, i) == component_of(
                candidates,
                j,
            ) <==> #[trigger] connected(candidates, i, j)),
{
    let n = candidates.len() as int;
    let own = component_of(candidates, i);
    lemma_components_partition(candidates, i, i);
    lemma_merged_below(candidates, own, n);
    lemma_merged_below(candidates, c, n);
    assert(is_member(candidates, own, i));
    assert(address_below(candidates, own, n, candidates[i].address));
    if candidate_addresses(candidates).no_duplicates() && cluster_of(
        candidates,
        c,
    ).addresses.contains(candidates[i].address) {
        assert(address_below(candidates, c, n, candidates[i].address));
        let j = choose|j: int|
            0 <= j < n && #[trigger] is_member(candidates, c, j) && candidates[j].address
                == candidates[i].address;
        assert(candidate_addresses(candidates)[j] == candidate_addresses(candidates)[i]);
    }
    assert forall|j: int| 0 <= j < candidates.len() implies (component_of(candidates, i)
        == component_of(candidates, j) <==> #[trigger] connected(candidates, i, j)) by {
        lemma_components_partition(candidates, i, j);
    }
}

} // verus!
