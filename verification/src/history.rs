//! Address histories: for every network address, which identity was seen
//! there over an ordered run of gossip snapshots, with consecutive repeats of
//! one identity collapsed into a single entry.
//!
//! The order of the snapshots is taken as given and is never changed: which
//! addresses end up marked depends on it.

use crate::names::{
    add_name, distinct, first_index, is_first_index, lemma_distinct_properties, lemma_first_index,
    lemma_first_index_unique, lemma_views_push, push_distinct, views,
};
use crate::registry::{identities, is_staked, registry_wf, Registry, ValidatorRecordView};
use vstd::prelude::*;

verus! {

/// One node record of a gossip snapshot.
#[derive(Debug, PartialEq, Eq)]
pub struct Observation {
    pub identity: String,
    /// The node's network address, where the snapshot gives one.
    pub address: Option<String>,
}

/// A node record, as contracts see it.
pub struct ObservationView {
    pub identity: Seq<char>,
    pub address: Option<Seq<char>>,
}

impl View for Observation {
    type V = ObservationView;

    open spec fn view(&self) -> ObservationView {
        ObservationView {
            identity: self.identity@,
            address: match self.address {
                Some(address) => Some(address@),
                None => None,
            },
        }
    }
}

/// One gossip snapshot: its node records in the order of the file, and a
/// label that names the file in the histories.
#[derive(Debug, PartialEq, Eq)]
pub struct SnapshotFile {
    pub label: String,
    pub observations: Vec<Observation>,
}

/// A snapshot, as contracts see it.
pub struct SnapshotFileView {
    pub label: Seq<char>,
    pub observations: Seq<ObservationView>,
}

impl View for SnapshotFile {
    type V = SnapshotFileView;

    open spec fn view(&self) -> SnapshotFileView {
        SnapshotFileView { label: self.label@, observations: views(self.observations@) }
    }
}

/// One entry of an address history: an identity, whether the registry holds
/// it, and the snapshot in which it appeared at the address.
#[derive(Debug, PartialEq, Eq)]
pub struct Sighting {
    pub identity: String,
    pub is_staked: bool,
    pub snapshot_label: String,
}

/// A history entry, as contracts see it.
pub struct SightingView {
    pub identity: Seq<char>,
    pub is_staked: bool,
    pub snapshot_label: Seq<char>,
}

impl View for Sighting {
    type V = SightingView;

    open spec fn view(&self) -> SightingView {
        SightingView {
            identity: self.identity@,
            is_staked: self.is_staked,
            snapshot_label: self.snapshot_label@,
        }
    }
}

impl Clone for Sighting {
    fn clone(&self) -> (copy: Self)
        ensures
            copy@ == self@,
    {
        Sighting {
            identity: self.identity.clone(),
            is_staked: self.is_staked,
            snapshot_label: self.snapshot_label.clone(),
        }
    }
}

/// The history of one address.
#[derive(Debug, PartialEq, Eq)]
pub struct AddressHistory {
    pub address: String,
    /// The identities seen at the address in the order of the snapshots, a
    /// run of one identity standing as its first sighting.
    pub entries: Vec<Sighting>,
    /// Whether the identity at the address changed at least once.
    pub flagged: bool,
}

/// An address history, as contracts see it.
pub struct AddressHistoryView {
    pub address: Seq<char>,
    pub entries: Seq<SightingView>,
    pub flagged: bool,
}

impl View for AddressHistory {
    type V = AddressHistoryView;

    open spec fn view(&self) -> AddressHistoryView {
        AddressHistoryView {
            address: self.address@,
            entries: views(self.entries@),
            flagged: self.flagged,
        }
    }
}

/// An observation that counts: one identity at one address, in one snapshot.
pub struct Event {
    pub identity: Seq<char>,
    pub address: Seq<char>,
    pub label: Seq<char>,
}

/// The address of an observation, where it has one that is not empty.
pub open spec fn usable_address(observation: ObservationView) -> Option<Seq<char>> {
    match observation.address {
        Some(address) => if address.len() > 0 {
            Some(address)
        } else {
            None
        },
        None => None,
    }
}

/// The events of a run of observations under one label: the observations with
/// a usable address, in order.
pub open spec fn observation_events(label: Seq<char>, observations: Seq<ObservationView>) -> Seq<
    Event,
>
    decreases observations.len(),
{
    if observations.len() == 0 {
        Seq::empty()
    } else {
        let earlier = observation_events(label, observations.drop_last());
        match usable_address(observations.last()) {
            Some(address) => earlier.push(
                Event { identity: observations.last().identity, address, label },
            ),
            None => earlier,
        }
    }
}

/// The events of a run of snapshots: those of each snapshot, one snapshot
/// after the other.
pub open spec fn all_events(files: Seq<SnapshotFileView>) -> Seq<Event>
    decreases files.len(),
{
    if files.len() == 0 {
        Seq::empty()
    } else {
        all_events(files.drop_last()) + observation_events(
            files.last().label,
            files.last().observations,
        )
    }
}

/// What an event leaves in a history.
pub open spec fn sighting_of(event: Event, records: Seq<ValidatorRecordView>) -> SightingView {
    SightingView {
        identity: event.identity,
        is_staked: is_staked(records, event.identity),
        snapshot_label: event.label,
    }
}

/// Every sighting at `address`, in order, repeats included.
pub open spec fn sightings_at(
    events: Seq<Event>,
    records: Seq<ValidatorRecordView>,
    address: Seq<char>,
) -> Seq<SightingView>
    decreases events.len(),
{
    if events.len() == 0 {
        Seq::empty()
    } else {
        let earlier = sightings_at(events.drop_last(), records, address);
        if events.last().address == address {
            earlier.push(sighting_of(events.last(), records))
        } else {
            earlier
        }
    }
}

/// `entries` after one more sighting: it is appended unless it repeats the
/// identity of the last entry.
pub open spec fn append_sighting(entries: Seq<SightingView>, sighting: SightingView) -> Seq<
    SightingView,
> {
    if entries.len() > 0 && entries.last().identity == sighting.identity {
        entries
    } else {
        entries.push(sighting)
    }
}

/// `sightings` with every run of one identity collapsed into the first
/// sighting of the run.
pub open spec fn compress(sightings: Seq<SightingView>) -> Seq<SightingView>
    decreases sightings.len(),
{
    if sightings.len() == 0 {
        Seq::empty()
    } else {
        append_sighting(compress(sightings.drop_last()), sightings.last())
    }
}

/// No two neighbours in `entries` carry the same identity.
pub open spec fn is_compressed(entries: Seq<SightingView>) -> bool {
    forall|i: int|
        0 < i < entries.len() ==> entries[i - 1].identity != (#[trigger] entries[i]).identity
}

/// A history is well formed when its entries are compressed and it is marked
/// exactly when it has two entries or more.
pub open spec fn history_wf(history: AddressHistoryView) -> bool {
    &&& is_compressed(history.entries)
    &&& history.flagged <==> history.entries.len() >= 2
}

/// A history after one more sighting at its address. The mark is set when an
/// entry is appended behind another, and is never taken back.
pub open spec fn record_sighting(
    history: AddressHistoryView,
    sighting: SightingView,
) -> AddressHistoryView {
    let entries = append_sighting(history.entries, sighting);
    AddressHistoryView {
        address: history.address,
        entries,
        flagged: history.flagged || (entries.len() > history.entries.len()
            && history.entries.len() > 0),
    }
}

/// The addresses of `events`, in order, repeats included.
pub open spec fn event_addresses(events: Seq<Event>) -> Seq<Seq<char>> {
    Seq::new(events.len(), |i: int| events[i].address)
}

/// The history of `address` over `events`.
pub open spec fn history_of(
    events: Seq<Event>,
    records: Seq<ValidatorRecordView>,
    address: Seq<char>,
) -> AddressHistoryView {
    let entries = compress(sightings_at(events, records, address));
    AddressHistoryView { address, entries, flagged: entries.len() >= 2 }
}

/// The histories over `events`: one for each address that occurs, in the
/// order in which the addresses first occur.
pub open spec fn histories_of(events: Seq<Event>, records: Seq<ValidatorRecordView>) -> Seq<
    AddressHistoryView,
> {
    let addresses = distinct(event_addresses(events));
    Seq::new(addresses.len(), |k: int| history_of(events, records, addresses[k]))
}

/// The addresses of `histories`, in order.
pub open spec fn history_addresses(histories: Seq<AddressHistoryView>) -> Seq<Seq<char>> {
    Seq::new(histories.len(), |k: int| histories[k].address)
}

/// `histories` after one more sighting at `address`: the history of the
/// address takes it, and an address not seen before gets a history of its own
/// at the end.
pub open spec fn record_in(
    histories: Seq<AddressHistoryView>,
    address: Seq<char>,
    sighting: SightingView,
) -> Seq<AddressHistoryView> {
    match first_index(history_addresses(histories), address) {
        Some(k) => histories.update(k, record_sighting(histories[k], sighting)),
        None => histories.push(
            record_sighting(
                AddressHistoryView { address, entries: Seq::empty(), flagged: false },
                sighting,
            ),
        ),
    }
}

/// Compressing leaves no two neighbours with one identity, and leaves a
/// sequence that is empty only if what was compressed is.
pub proof fn lemma_compress_is_compressed(sightings: Seq<SightingView>)
    ensures
        is_compressed(compress(sightings)),
        compress(sightings).len() <= sightings.len(),
        sightings.len() > 0 ==> compress(sightings).len() > 0 && compress(sightings).last().identity
            == sightings.last().identity && compress(sightings).first() == sightings.first(),
    decreases sightings.len(),
{
    if sightings.len() > 0 {
        lemma_compress_is_compressed(sightings.drop_last());
        if sightings.len() == 1 {
            assert(sightings.drop_last().len() == 0);
        } else {
            assert(sightings.drop_last().first() == sightings.first());
        }
    }
}

/// A sequence in which no two neighbours carry one identity is its own
/// compression.
pub proof fn lemma_compress_fixed(entries: Seq<SightingView>)
    requires
        is_compressed(entries),
    ensures
        compress(entries) == entries,
    decreases entries.len(),
{
    if entries.len() > 0 {
        let init = entries.drop_last();
        assert(is_compressed(init)) by {
            assert forall|i: int| 0 < i < init.len() implies init[i - 1].identity != (
            #[trigger] init[i]).identity by {
                assert(entries[i - 1].identity != entries[i].identity);
            }
        }
        lemma_compress_fixed(init);
        if init.len() > 0 {
            assert(entries[entries.len() - 2].identity != entries[entries.len() - 1].identity);
        }
        assert(init.push(entries.last()) =~= entries);
    } else {
        assert(entries =~= Seq::empty());
    }
}

/// Compressing twice gives what compressing once gives.
pub proof fn lemma_compress_idempotent(sightings: Seq<SightingView>)
    ensures
        compress(compress(sightings)) == compress(sightings),
{
    lemma_compress_is_compressed(sightings);
    lemma_compress_fixed(compress(sightings));
}

/// Somewhere in `sightings` the identity differs from the one before.
pub open spec fn identity_changes(sightings: Seq<SightingView>) -> bool {
    exists|i: int|
        0 < i < sightings.len() && sightings[i - 1].identity != (#[trigger] sightings[i]).identity
}

/// Compressing leaves two entries or more exactly when the identity changed
/// at least once: this is what marks an address.
pub proof fn lemma_flagged_means_changed(sightings: Seq<SightingView>)
    ensures
        compress(sightings).len() >= 2 <==> identity_changes(sightings),
    decreases sightings.len(),
{
    if sightings.len() > 0 {
        let init = sightings.drop_last();
        let last = sightings.last();
        lemma_flagged_means_changed(init);
        lemma_compress_is_compressed(init);
        if identity_changes(init) {
            let i = choose|i: int|
                0 < i < init.len() && init[i - 1].identity != (#[trigger] init[i]).identity;
            assert(sightings[i - 1] == init[i - 1] && sightings[i] == init[i]);
        }
        if identity_changes(sightings) {
            let i = choose|i: int|
                0 < i < sightings.len() && sightings[i - 1].identity != (
                #[trigger] sightings[i]).identity;
            if i < init.len() {
                assert(init[i - 1] == sightings[i - 1] && init[i] == sightings[i]);
                assert(identity_changes(init));
            } else {
                assert(init.last() == sightings[i - 1]);
            }
        }
        if init.len() > 0 && init.last().identity != last.identity {
            assert(sightings[sightings.len() - 2] == init.last());
            assert(sightings[sightings.len() - 1] == last);
            assert(identity_changes(sightings));
        }
    }
}

/// The history of an address over any events is well formed.
pub proof fn lemma_history_of_wf(
    events: Seq<Event>,
    records: Seq<ValidatorRecordView>,
    address: Seq<char>,
)
    ensures
        history_wf(history_of(events, records, address)),
{
    lemma_compress_is_compressed(sightings_at(events, records, address));
}

/// Recording a sighting keeps a history well formed.
pub proof fn lemma_record_sighting_wf(history: AddressHistoryView, sighting: SightingView)
    requires
        history_wf(history),
    ensures
        history_wf(record_sighting(history, sighting)),
{
    let entries = append_sighting(history.entries, sighting);
    assert forall|i: int| 0 < i < entries.len() implies entries[i - 1].identity != (
    #[trigger] entries[i]).identity by {
        if i < history.entries.len() {
            assert(history.entries[i - 1].identity != history.entries[i].identity);
        }
    }
}

/// An address that no event names has no sighting.
pub proof fn lemma_no_sightings(
    events: Seq<Event>,
    records: Seq<ValidatorRecordView>,
    address: Seq<char>,
)
    requires
        !event_addresses(events).contains(address),
    ensures
        sightings_at(events, records, address) == Seq::<SightingView>::empty(),
    decreases events.len(),
{
    if events.len() > 0 {
        let init = events.drop_last();
        assert(event_addresses(events)[events.len() - 1] == events.last().address);
        assert forall|i: int| 0 <= i < init.len() implies event_addresses(init)[i] != address by {
            assert(event_addresses(events)[i] == init[i].address);
        }
        lemma_no_sightings(init, records, address);
    }
}

/// One more event changes the histories as recording its sighting at its
/// address does.
pub proof fn lemma_histories_step(
    events: Seq<Event>,
    records: Seq<ValidatorRecordView>,
    event: Event,
)
    ensures
        histories_of(events.push(event), records) == record_in(
            histories_of(events, records),
            event.address,
            sighting_of(event, records),
        ),
{
    let after = events.push(event);
    let sighting = sighting_of(event, records);
    let seen = distinct(event_addresses(events));
    let seen_after = distinct(event_addresses(after));
    let before = histories_of(events, records);
    assert(after.drop_last() =~= events);
    assert(event_addresses(after).drop_last() =~= event_addresses(events));
    assert(history_addresses(before) =~= seen);
    lemma_distinct_properties(event_addresses(events));
    lemma_first_index(seen, event.address);
    assert forall|address: Seq<char>|
        compress(#[trigger] sightings_at(after, records, address)) == if address == event.address {
            append_sighting(compress(sightings_at(events, records, address)), sighting)
        } else {
            compress(sightings_at(events, records, address))
        } by {
        if address == event.address {
            assert(sightings_at(after, records, address).drop_last() =~= sightings_at(
                events,
                records,
                address,
            ));
        }
    }
    match first_index(seen, event.address) {
        Some(k) => {
            assert(seen_after == seen);
            assert forall|j: int| 0 <= j < seen.len() && j != k implies seen[j]
                != event.address by {
                assert(seen[k] == event.address);
            }
            assert(histories_of(after, records) =~= before.update(
                k,
                record_sighting(before[k], sighting),
            ));
        },
        None => {
            assert(seen_after == seen.push(event.address));
            assert(!event_addresses(events).contains(event.address));
            lemma_no_sightings(events, records, event.address);
            assert forall|j: int| 0 <= j < seen.len() implies seen[j] != event.address by {
                assert(seen.contains(seen[j]));
            }
            assert(histories_of(after, records) =~= before.push(
                record_sighting(
                    AddressHistoryView {
                        address: event.address,
                        entries: Seq::empty(),
                        flagged: false,
                    },
                    sighting,
                ),
            ));
        },
    }
}

impl AddressHistory {
    /// The entries are compressed, and the history is marked exactly when it
    /// has two entries or more.
    pub open spec fn wf(&self) -> bool {
        history_wf(self@)
    }

    /// The history of an address at which nothing has been seen yet.
    pub fn new(address: String) -> (history: Self)
        ensures
            history@ == (AddressHistoryView {
                address: address@,
                entries: Seq::empty(),
                flagged: false,
            }),
            history.wf(),
    {
        let history = AddressHistory { address, entries: Vec::new(), flagged: false };
        proof {
            assert(history@.entries =~= Seq::empty());
        }
        history
    }

    /// Takes one more sighting at the address: it is appended unless it
    /// repeats the identity of the last entry, and an entry appended behind
    /// another marks the address.
    pub fn record(&mut self, sighting: Sighting)
        ensures
            final(self)@ == record_sighting(old(self)@, sighting@),
            old(self).wf() ==> final(self).wf(),
    {
        proof {
            if self.wf() {
                lemma_record_sighting_wf(self@, sighting@);
            }
        }
        let n = self.entries.len();
        if n > 0 && self.entries[n - 1].identity == sighting.identity {
            return ;
        }
        proof {
            lemma_views_push(self.entries@, sighting);
        }
        self.entries.push(sighting);
        if n > 0 {
            self.flagged = true;
        }
    }
}

/// Collapses every run of one identity into the first sighting of the run.
pub fn compress_sightings(sightings: &Vec<Sighting>) -> (compressed: Vec<Sighting>)
    ensures
        views(compressed@) == compress(views(sightings@)),
{
    let mut compressed: Vec<Sighting> = Vec::new();
    let mut i: usize = 0;
    proof {
        assert(views(sightings@).take(0) =~= Seq::empty());
        assert(views(compressed@) =~= Seq::empty());
    }
    while i < sightings.len()
        invariant
            i <= sightings.len(),
            views(compressed@) == compress(views(sightings@).take(i as int)),
        decreases sightings.len() - i,
    {
        proof {
            assert(views(sightings@).take(i + 1).drop_last() =~= views(sightings@).take(i as int));
        }
        let n = compressed.len();
        if !(n > 0 && compressed[n - 1].identity == sightings[i].identity) {
            proof {
                lemma_views_push(compressed@, sightings[i as int]);
            }
            compressed.push(sightings[i].clone());
        }
        i += 1;
    }
    proof {
        assert(views(sightings@).take(sightings.len() as int) =~= views(sightings@));
    }
    compressed
}

/// The index of the history of `address`, if there is one.
pub fn find_history(histories: &Vec<AddressHistory>, address: &String) -> (found: Option<usize>)
    ensures
        match found {
            Some(k) => first_index(history_addresses(views(histories@)), address@) == Some(
                k as int,
            ),
            None => first_index(history_addresses(views(histories@)), address@) is None,
        },
{
    let ghost addresses = history_addresses(views(histories@));
    proof {
        lemma_first_index(addresses, address@);
    }
    let mut k: usize = 0;
    while k < histories.len()
        invariant
            k <= histories.len(),
            addresses == history_addresses(views(histories@)),
            forall|j: int| 0 <= j < k ==> addresses[j] != address@,
        decreases histories.len() - k,
    {
        if histories[k].address == *address {
            proof {
                assert(is_first_index(addresses, address@, k as int));
                lemma_first_index_unique(addresses, address@, k as int);
            }
            return Some(k);
        }
        k += 1;
    }
    None
}

/// Records one sighting at `address` in `histories`.
pub fn record_event(histories: &mut Vec<AddressHistory>, address: &String, sighting: Sighting)
    ensures
        views(final(histories)@) == record_in(views(old(histories)@), address@, sighting@),
{
    let ghost before = views(histories@);
    match find_history(histories, address) {
        Some(k) => {
            histories[k].record(sighting);
            proof {
                assert(views(histories@) =~= before.update(
                    k as int,
                    record_sighting(before[k as int], sighting@),
                ));
            }
        },
        None => {
            let mut history = AddressHistory::new(address.clone());
            history.record(sighting);
            proof {
                lemma_views_push(histories@, history);
            }
            histories.push(history);
        },
    }
}

/// Folds an ordered run of snapshots into the histories of the addresses seen
/// in them. Observations without a usable address are passed over. An
/// identity counts as staked when `registry` holds it.
pub fn build_address_histories(files: &Vec<SnapshotFile>, registry: &Registry) -> (histories: Vec<
    AddressHistory,
>)
    ensures
        views(histories@) == histories_of(all_events(views(files@)), registry@),
{
    let ghost snapshots = views(files@);
    let mut histories: Vec<AddressHistory> = Vec::new();
    let mut f: usize = 0;
    proof {
        assert(snapshots.take(0) =~= Seq::empty());
        assert(event_addresses(Seq::empty()) =~= Seq::empty());
        assert(views(histories@) =~= histories_of(Seq::empty(), registry@));
    }
    while f < files.len()
        invariant
            f <= files.len(),
            snapshots == views(files@),
            views(histories@) == histories_of(all_events(snapshots.take(f as int)), registry@),
        decreases files.len() - f,
    {
        let file = &files[f];
        let ghost done = all_events(snapshots.take(f as int));
        let ghost observations = views(file.observations@);
        let mut o: usize = 0;
        proof {
            assert(observations.take(0) =~= Seq::empty());
            assert(done + Seq::<Event>::empty() =~= done);
        }
        while o < file.observations.len()
            invariant
                o <= file.observations.len(),
                observations == views(file.observations@),
                views(histories@) == histories_of(
                    done + observation_events(file.label@, observations.take(o as int)),
                    registry@,
                ),
            decreases file.observations.len() - o,
        {
            let observation = &file.observations[o];
            let ghost earlier = observation_events(file.label@, observations.take(o as int));
            proof {
                assert(observations.take(o + 1).drop_last() =~= observations.take(o as int));
                assert(observations.take(o + 1).last() == observation@);
            }
            match &observation.address {
                Some(address) => {
                    if !address.as_str().is_empty() {
                        let sighting = Sighting {
                            identity: observation.identity.clone(),
                            is_staked: registry.contains(&observation.identity),
                            snapshot_label: file.label.clone(),
                        };
                        proof {
                            let event = Event {
                                identity: observation.identity@,
                                address: address@,
                                label: file.label@,
                            };
                            lemma_histories_step(done + earlier, registry@, event);
                            assert((done + earlier).push(event) =~= done + earlier.push(event));
                        }
                        record_event(&mut histories, address, sighting);
                    }
                },
                None => {},
            }
            o += 1;
        }
        proof {
            assert(observations.take(file.observations.len() as int) =~= observations);
            assert(snapshots.take(f + 1).drop_last() =~= snapshots.take(f as int));
            assert(snapshots.take(f + 1).last() == file@);
        }
        f += 1;
    }
    proof {
        assert(snapshots.take(files.len() as int) =~= snapshots);
    }
    histories
}

/// The addresses of the marked histories, in the order of the histories.
pub open spec fn flagged_addresses_of(histories: Seq<AddressHistoryView>) -> Seq<Seq<char>>
    decreases histories.len(),
{
    if histories.len() == 0 {
        Seq::empty()
    } else if histories.last().flagged {
        flagged_addresses_of(histories.drop_last()).push(histories.last().address)
    } else {
        flagged_addresses_of(histories.drop_last())
    }
}

/// The addresses whose identity changed at least once.
pub fn flagged_addresses(histories: &Vec<AddressHistory>) -> (addresses: Vec<String>)
    ensures
        views(addresses@) == flagged_addresses_of(views(histories@)),
{
    let mut addresses: Vec<String> = Vec::new();
    let mut k: usize = 0;
    proof {
        assert(views(histories@).take(0) =~= Seq::empty());
        assert(views(addresses@) =~= Seq::empty());
    }
    while k < histories.len()
        invariant
            k <= histories.len(),
            views(addresses@) == flagged_addresses_of(views(histories@).take(k as int)),
        decreases histories.len() - k,
    {
        proof {
            assert(views(histories@).take(k + 1).drop_last() =~= views(histories@).take(k as int));
        }
        if histories[k].flagged {
            proof {
                lemma_views_push(addresses@, histories[k as int].address);
            }
            addresses.push(histories[k].address.clone());
        }
        k += 1;
    }
    proof {
        assert(views(histories@).take(histories.len() as int) =~= views(histories@));
    }
    addresses
}

/// `record` with `address` among its observed addresses: appended unless it
/// is there already.
pub open spec fn with_address(
    record: ValidatorRecordView,
    address: Seq<char>,
) -> ValidatorRecordView {
    ValidatorRecordView {
        observed_addresses: add_name(record.observed_addresses, address),
        ..record
    }
}

/// `records` after one event: the record of the event's identity, if there is
/// one, has the event's address among its observed addresses.
pub open spec fn observe_event(records: Seq<ValidatorRecordView>, event: Event) -> Seq<
    ValidatorRecordView,
> {
    match first_index(identities(records), event.identity) {
        Some(k) => records.update(k, with_address(records[k], event.address)),
        None => records,
    }
}

/// `records` after `events`, taken in order.
pub open spec fn observe_events(records: Seq<ValidatorRecordView>, events: Seq<Event>) -> Seq<
    ValidatorRecordView,
>
    decreases events.len(),
{
    if events.len() == 0 {
        records
    } else {
        observe_event(observe_events(records, events.drop_last()), events.last())
    }
}

/// Returns the registry with, for every staked identity, the addresses at
/// which the snapshots show it added to its observed addresses. Nothing else
/// in the registry changes.
pub fn record_observed_addresses(files: &Vec<SnapshotFile>, registry: Registry) -> (updated:
    Registry)
    ensures
        updated@ == observe_events(registry@, all_events(views(files@))),
{
    let ghost snapshots = views(files@);
    let ghost initial = registry@;
    let mut updated = registry;
    let mut f: usize = 0;
    proof {
        assert(snapshots.take(0) =~= Seq::empty());
    }
    while f < files.len()
        invariant
            f <= files.len(),
            snapshots == views(files@),
            updated@ == observe_events(initial, all_events(snapshots.take(f as int))),
        decreases files.len() - f,
    {
        let file = &files[f];
        let ghost done = all_events(snapshots.take(f as int));
        let ghost observations = views(file.observations@);
        let mut o: usize = 0;
        proof {
            assert(observations.take(0) =~= Seq::empty());
            assert(done + Seq::<Event>::empty() =~= done);
        }
        while o < file.observations.len()
            invariant
                o <= file.observations.len(),
                observations == views(file.observations@),
                updated@ == observe_events(
                    initial,
                    done + observation_events(file.label@, observations.take(o as int)),
                ),
            decreases file.observations.len() - o,
        {
            let observation = &file.observations[o];
            let ghost earlier = observation_events(file.label@, observations.take(o as int));
            proof {
                assert(observations.take(o + 1).drop_last() =~= observations.take(o as int));
                assert(observations.take(o + 1).last() == observation@);
            }
            match &observation.address {
                Some(address) => {
                    if !address.as_str().is_empty() {
                        let ghost event = Event {
                            identity: observation.identity@,
                            address: address@,
                            label: file.label@,
                        };
                        let ghost before = updated@;
                        proof {
                            assert((done + earlier.push(event)).drop_last() =~= done + earlier);
                        }
                        match updated.find(&observation.identity) {
                            Some(k) => {
                                push_distinct(&mut updated.records[k].observed_addresses, address);
                                proof {
                                    assert(updated@ =~= before.update(
                                        k as int,
                                        with_address(before[k as int], address@),
                                    ));
                                }
                            },
                            None => {},
                        }
                    }
                },
                None => {},
            }
            o += 1;
        }
        proof {
            assert(observations.take(file.observations.len() as int) =~= observations);
            assert(snapshots.take(f + 1).drop_last() =~= snapshots.take(f as int));
            assert(snapshots.take(f + 1).last() == file@);
        }
        f += 1;
    }
    proof {
        assert(snapshots.take(files.len() as int) =~= snapshots);
    }
    updated
}

/// Two records that differ in their observed addresses at most.
pub open spec fn same_validator(a: ValidatorRecordView, b: ValidatorRecordView) -> bool {
    a == (ValidatorRecordView { observed_addresses: a.observed_addresses, ..b })
}

/// Some event shows `identity` at `address`.
pub open spec fn seen_at(events: Seq<Event>, identity: Seq<char>, address: Seq<char>) -> bool {
    exists|i: int|
        0 <= i < events.len() && (#[trigger] events[i]).identity == identity && events[i].address
            == address
}

/// Observing events changes nothing in a registry but observed addresses,
/// and these only grow: the registry keeps its identities in their places,
/// every record keeps its other fields, and what a record had observed stays
/// at the front of what it has observed afterwards.
pub proof fn lemma_observe_events_keeps(records: Seq<ValidatorRecordView>, events: Seq<Event>)
    ensures
        observe_events(records, events).len() == records.len(),
        identities(observe_events(records, events)) == identities(records),
        forall|k: int|
            0 <= k < records.len() ==> same_validator(
                #[trigger] observe_events(records, events)[k],
                records[k],
            ) && records[k].observed_addresses.is_prefix_of(
                observe_events(records, events)[k].observed_addresses,
            ),
        registry_wf(records) ==> registry_wf(observe_events(records, events)),
        forall|identity: Seq<char>|
            is_staked(observe_events(records, events), identity) == is_staked(records, identity),
    decreases events.len(),
{
    let after = observe_events(records, events);
    if events.len() > 0 {
        let earlier = observe_events(records, events.drop_last());
        lemma_observe_events_keeps(records, events.drop_last());
        lemma_first_index(identities(earlier), events.last().identity);
        assert(identities(after) =~= identities(earlier));
        assert forall|k: int| 0 <= k < records.len() implies same_validator(
            #[trigger] after[k],
            records[k],
        ) && records[k].observed_addresses.is_prefix_of(after[k].observed_addresses) by {
            assert(same_validator(earlier[k], records[k]));
        }
        if registry_wf(records) {
            assert forall|k: int| 0 <= k < after.len() implies (
            #[trigger] after[k]).activated_stake_lamports >= 1 by {
                assert(same_validator(after[k], records[k]));
                assert(records[k].activated_stake_lamports >= 1);
            }
        }
    } else {
        assert forall|k: int|
            0 <= k < records.len() implies records[k].observed_addresses.is_prefix_of(
            records[k].observed_addresses,
        ) by {}
    }
}

/// What a record has observed after the events: what it had observed, and
/// every address at which an event shows its identity. This holds of the
/// first record of each identity; a registry has no other.
pub proof fn lemma_observed_addresses(
    records: Seq<ValidatorRecordView>,
    events: Seq<Event>,
    k: int,
    address: Seq<char>,
)
    requires
        is_first_index(identities(records), records[k].identity, k),
    ensures
        observe_events(records, events)[k].observed_addresses.contains(address)
            <==> records[k].observed_addresses.contains(address) || seen_at(
            events,
            records[k].identity,
            address,
        ),
    decreases events.len(),
{
    let identity = records[k].identity;
    if events.len() > 0 {
        let init = events.drop_last();
        let event = events.last();
        let earlier = observe_events(records, init);
        let after = observe_events(records, events);
        lemma_observed_addresses(records, init, k, address);
        lemma_observe_events_keeps(records, init);
        lemma_first_index(identities(earlier), event.identity);
        if seen_at(init, identity, address) {
            let i = choose|i: int|
                0 <= i < init.len() && (#[trigger] init[i]).identity == identity && init[i].address
                    == address;
            assert(events[i] == init[i]);
        }
        if seen_at(events, identity, address) {
            let i = choose|i: int|
                0 <= i < events.len() && (#[trigger] events[i]).identity == identity
                    && events[i].address == address;
            if i < init.len() {
                assert(init[i] == events[i]);
            }
        }
        if event.identity == identity {
            lemma_first_index_unique(identities(earlier), identity, k);
            let had = earlier[k].observed_addresses;
            assert(after[k].observed_addresses == add_name(had, event.address));
            if had.contains(address) {
                let m = had.index_of(address);
                assert(add_name(had, event.address)[m] == address);
            }
            if !had.contains(event.address) {
                assert(had.push(event.address)[had.len() as int] == event.address);
            }
            if event.address == address {
                assert(events[events.len() - 1] == event);
            }
        } else {
            match first_index(identities(earlier), event.identity) {
                Some(m) => {
                    assert(m != k);
                },
                None => {},
            }
        }
    }
}

/// The sightings carry the mark of the registry: a sighting is marked staked
/// exactly when `records` holds its identity.
pub open spec fn tagged_by(entries: Seq<SightingView>, records: Seq<ValidatorRecordView>) -> bool {
    forall|m: int|
        0 <= m < entries.len() ==> (#[trigger] entries[m]).is_staked == is_staked(
            records,
            entries[m].identity,
        )
}

/// What is left after compressing was there before.
pub proof fn lemma_compress_keeps_tags(
    sightings: Seq<SightingView>,
    records: Seq<ValidatorRecordView>,
)
    requires
        tagged_by(sightings, records),
    ensures
        tagged_by(compress(sightings), records),
    decreases sightings.len(),
{
    if sightings.len() > 0 {
        let init = sightings.drop_last();
        assert(tagged_by(init, records)) by {
            assert forall|m: int| 0 <= m < init.len() implies (#[trigger] init[m]).is_staked
                == is_staked(records, init[m].identity) by {
                assert(init[m] == sightings[m]);
            }
        }
        lemma_compress_keeps_tags(init, records);
        assert(sightings[sightings.len() - 1] == sightings.last());
    }
}

/// The histories over any events are well formed, no two of them are of one
/// address, and their sightings carry the mark of the registry.
pub proof fn lemma_histories_of(events: Seq<Event>, records: Seq<ValidatorRecordView>)
    ensures
        history_addresses(histories_of(events, records)).no_duplicates(),
        forall|k: int|
            0 <= k < histories_of(events, records).len() ==> history_wf(
                #[trigger] histories_of(events, records)[k],
            ) && tagged_by(histories_of(events, records)[k].entries, records),
{
    let addresses = distinct(event_addresses(events));
    lemma_distinct_properties(event_addresses(events));
    assert(history_addresses(histories_of(events, records)) =~= addresses);
    assert forall|k: int| 0 <= k < histories_of(events, records).len() implies history_wf(
        #[trigger] histories_of(events, records)[k],
    ) && tagged_by(histories_of(events, records)[k].entries, records) by {
        lemma_history_of_wf(events, records, addresses[k]);
        lemma_sightings_tagged(events, records, addresses[k]);
        lemma_compress_keeps_tags(sightings_at(events, records, addresses[k]), records);
    }
}

/// The sightings at an address carry the mark of the registry.
proof fn lemma_sightings_tagged(
    events: Seq<Event>,
    records: Seq<ValidatorRecordView>,
    address: Seq<char>,
)
    ensures
        tagged_by(sightings_at(events, records, address), records),
    decreases events.len(),
{
    if events.len() > 0 {
        lemma_sightings_tagged(events.drop_last(), records, address);
    }
}

} // verus!
