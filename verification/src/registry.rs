//! The registry of announced peers: one record for each identity.
use vstd::prelude::*;

verus! {

/// One address at which a peer can be reached, as text.
#[derive(Debug, PartialEq, Eq)]
pub struct AddrInfo {
    pub address: String,
}

impl View for AddrInfo {
    type V = Seq<char>;

    open spec fn view(&self) -> Seq<char> {
        self.address@
    }
}

impl Clone for AddrInfo {
    fn clone(&self) -> (copy: Self)
        ensures
            copy@ == self@,
    {
        AddrInfo { address: self.address.clone() }
    }
}

/// What the registry knows of one peer.
#[derive(Debug, PartialEq, Eq)]
pub struct PeerStat {
    /// The peer's identity, as text.
    pub peer: String,
    /// The addresses of the peer's registration, each naming the peer.
    pub addrinfo: Vec<AddrInfo>,
    /// The last round trip measured, in milliseconds.
    pub ping: Option<u64>,
    /// When the peer registered or last answered, in seconds since the epoch.
    pub last_seen: i64,
}

/// The mathematical value of a `PeerStat`.
pub struct PeerRecord {
    pub peer: Seq<char>,
    pub addresses: Seq<Seq<char>>,
    pub ping: Option<u64>,
    pub last_seen: i64,
}

/// The texts of a list of addresses, in order.
pub open spec fn address_texts(infos: Seq<AddrInfo>) -> Seq<Seq<char>> {
    Seq::new(infos.len(), |i: int| infos[i]@)
}

impl View for PeerStat {
    type V = PeerRecord;

    open spec fn view(&self) -> PeerRecord {
        PeerRecord {
            peer: self.peer@,
            addresses: address_texts(self.addrinfo@),
            ping: self.ping,
            last_seen: self.last_seen,
        }
    }
}

/// A copy of a list of addresses.
pub fn clone_addresses(infos: &Vec<AddrInfo>) -> (copy: Vec<AddrInfo>)
    ensures
        address_texts(copy@) == address_texts(infos@),
{
    let mut copy: Vec<AddrInfo> = Vec::new();
    let mut i: usize = 0;
    while i < infos.len()
        invariant
            i <= infos.len(),
            copy.len() == i,
            forall|j: int| 0 <= j < i ==> copy[j]@ == infos[j]@,
        decreases infos.len() - i,
    {
        copy.push(infos[i].clone());
        i += 1;
    }
    assert(address_texts(copy@) =~= address_texts(infos@));
    copy
}

impl Clone for PeerStat {
    fn clone(&self) -> (copy: Self)
        ensures
            copy@ == self@,
    {
        PeerStat {
            peer: self.peer.clone(),
            addrinfo: clone_addresses(&self.addrinfo),
            ping: self.ping,
            last_seen: self.last_seen,
        }
    }
}

/// The record that a registration creates: no round trip measured yet.
pub open spec fn fresh_record(peer: Seq<char>, addresses: Seq<Seq<char>>, now: i64) -> PeerRecord {
    PeerRecord { peer, addresses, ping: None, last_seen: now }
}

/// A record after an answer to a liveness probe: the addresses stay.
pub open spec fn refreshed_record(record: PeerRecord, rtt: u64, now: i64) -> PeerRecord {
    PeerRecord { ping: Some(rtt), last_seen: now, ..record }
}

/// The registry after a registration: the peer's record is the fresh one,
/// whatever was there before.
pub open spec fn upserted(
    peers: Map<Seq<char>, PeerRecord>,
    peer: Seq<char>,
    addresses: Seq<Seq<char>>,
    now: i64,
) -> Map<Seq<char>, PeerRecord> {
    peers.insert(peer, fresh_record(peer, addresses, now))
}

/// The registry after an answer to a liveness probe: a known peer's record
/// is refreshed, an unknown peer changes nothing.
pub open spec fn liveness_updated(
    peers: Map<Seq<char>, PeerRecord>,
    peer: Seq<char>,
    rtt: u64,
    now: i64,
) -> Map<Seq<char>, PeerRecord> {
    if peers.dom().contains(peer) {
        peers.insert(peer, refreshed_record(peers[peer], rtt, now))
    } else {
        peers
    }
}

/// No two records of the sequence speak of the same peer.
pub open spec fn distinct_peers(records: Seq<PeerRecord>) -> bool {
    forall|i: int, j: int| 0 <= i < j < records.len() ==> records[i].peer != records[j].peer
}

/// Some record of the sequence speaks of `peer`.
pub open spec fn has_peer(records: Seq<PeerRecord>, peer: Seq<char>) -> bool {
    exists|i: int| 0 <= i < records.len() && #[trigger] records[i].peer == peer
}

/// A place in the sequence at which a record of `peer` stands.
pub open spec fn place_of(records: Seq<PeerRecord>, peer: Seq<char>) -> int {
    choose|i: int| 0 <= i < records.len() && #[trigger] records[i].peer == peer
}

/// The records of a sequence, each under its peer.
pub open spec fn records_map(records: Seq<PeerRecord>) -> Map<Seq<char>, PeerRecord> {
    Map::new(
        |peer: Seq<char>| has_peer(records, peer),
        |peer: Seq<char>| records[place_of(records, peer)],
    )
}

/// In a sequence of distinct records, the record at a place is the one
/// that the map holds under its peer.
pub proof fn lemma_record_at(records: Seq<PeerRecord>, i: int)
    requires
        distinct_peers(records),
        0 <= i < records.len(),
    ensures
        records_map(records).dom().contains(records[i].peer),
        records_map(records)[records[i].peer] == records[i],
{
    let peer = records[i].peer;
    assert(has_peer(records, peer));
    let p = place_of(records, peer);
    assert(0 <= p < records.len() && records[p].peer == peer);
    assert(p == i);
}

/// A sequence of distinct records and its map hold equally many records.
pub proof fn lemma_records_count(records: Seq<PeerRecord>)
    requires
        distinct_peers(records),
    ensures
        records_map(records).dom().finite(),
        records_map(records).dom().len() == records.len(),
    decreases records.len(),
{
    if records.len() == 0 {
        assert(records_map(records).dom() =~= Set::<Seq<char>>::empty());
    } else {
        let front = records.drop_last();
        let last = records.last();
        lemma_records_count(front);
        assert(!has_peer(front, last.peer));
        assert forall|peer: Seq<char>|
            records_map(records).dom().contains(peer) <==> records_map(front).dom().insert(
                last.peer,
            ).contains(peer) by {
            if has_peer(records, peer) {
                let p = place_of(records, peer);
                if p < front.len() {
                    assert(front[p].peer == peer);
                }
            }
            if has_peer(front, peer) {
                let p = place_of(front, peer);
                assert(records[p].peer == peer);
            }
            if peer == last.peer {
                assert(records[records.len() - 1].peer == peer);
            }
        }
        assert(records_map(records).dom() =~= records_map(front).dom().insert(last.peer));
    }
}

/// Putting a record behind a sequence that does not know its peer inserts
/// it into the map.
pub proof fn lemma_push_record(records: Seq<PeerRecord>, record: PeerRecord)
    requires
        distinct_peers(records),
        !has_peer(records, record.peer),
    ensures
        distinct_peers(records.push(record)),
        records_map(records.push(record)) == records_map(records).insert(record.peer, record),
{
    let after = records.push(record);
    assert forall|i: int, j: int| 0 <= i < j < after.len() implies after[i].peer != after[j].peer by {
        if j == records.len() {
            assert(records[i].peer != record.peer);
        }
    }
    assert forall|peer: Seq<char>|
        records_map(after).dom().contains(peer) <==> records_map(records).insert(
            record.peer,
            record,
        ).dom().contains(peer) by {
        if has_peer(after, peer) {
            let p = place_of(after, peer);
            if p < records.len() {
                assert(records[p].peer == peer);
            }
        }
        if has_peer(records, peer) {
            let p = place_of(records, peer);
            assert(after[p].peer == peer);
        }
        if peer == record.peer {
            assert(after[after.len() - 1].peer == peer);
        }
    }
    assert forall|peer: Seq<char>| records_map(after).dom().contains(peer) implies records_map(
        after,
    )[peer] == records_map(records).insert(record.peer, record)[peer] by {
        let p = place_of(after, peer);
        lemma_record_at(after, p);
        if p < records.len() {
            lemma_record_at(records, p);
        }
    }
    assert(records_map(after) =~= records_map(records).insert(record.peer, record));
}

/// Replacing a record by one of the same peer replaces it in the map.
pub proof fn lemma_update_record(records: Seq<PeerRecord>, i: int, record: PeerRecord)
    requires
        distinct_peers(records),
        0 <= i < records.len(),
        records[i].peer == record.peer,
    ensures
        distinct_peers(records.update(i, record)),
        records_map(records.update(i, record)) == records_map(records).insert(
            record.peer,
            record,
        ),
{
    let after = records.update(i, record);
    assert forall|a: int, b: int| 0 <= a < b < after.len() implies after[a].peer != after[b].peer by {
        assert(after[a].peer == records[a].peer);
        assert(after[b].peer == records[b].peer);
    }
    assert forall|peer: Seq<char>|
        records_map(after).dom().contains(peer) <==> records_map(records).insert(
            record.peer,
            record,
        ).dom().contains(peer) by {
        if has_peer(after, peer) {
            let p = place_of(after, peer);
            assert(records[p].peer == peer);
        }
        if has_peer(records, peer) {
            let p = place_of(records, peer);
            assert(after[p].peer == peer);
        }
        if peer == record.peer {
            assert(after[i].peer == peer);
        }
    }
    assert forall|peer: Seq<char>| records_map(after).dom().contains(peer) implies records_map(
        after,
    )[peer] == records_map(records).insert(record.peer, record)[peer] by {
        let p = place_of(after, peer);
        lemma_record_at(after, p);
        if p != i {
            lemma_record_at(records, p);
        }
    }
    assert(records_map(after) =~= records_map(records).insert(record.peer, record));
}

/// Taking a record out of the sequence removes its peer from the map.
pub proof fn lemma_remove_record(records: Seq<PeerRecord>, i: int)
    requires
        distinct_peers(records),
        0 <= i < records.len(),
    ensures
        distinct_peers(records.remove(i)),
        records_map(records.remove(i)) == records_map(records).remove(records[i].peer),
{
    let after = records.remove(i);
    let gone = records[i].peer;
    assert forall|a: int, b: int| 0 <= a < b < after.len() implies after[a].peer != after[b].peer by {
        let first = if a < i { a } else { a + 1 };
        let second = if b < i { b } else { b + 1 };
        assert(after[a] == records[first]);
        assert(after[b] == records[second]);
    }
    assert forall|peer: Seq<char>|
        records_map(after).dom().contains(peer) <==> records_map(records).remove(
            gone,
        ).dom().contains(peer) by {
        if has_peer(after, peer) {
            let p = place_of(after, peer);
            let origin = if p < i { p } else { p + 1 };
            assert(after[p] == records[origin]);
            assert(records[origin].peer == peer);
        }
        if has_peer(records, peer) && peer != gone {
            let p = place_of(records, peer);
            let moved = if p < i { p } else { p - 1 };
            assert(after[moved] == records[p]);
            assert(after[moved].peer == peer);
        }
    }
    assert forall|peer: Seq<char>| records_map(after).dom().contains(peer) implies records_map(
        after,
    )[peer] == records_map(records).remove(gone)[peer] by {
        let p = place_of(after, peer);
        let origin = if p < i { p } else { p + 1 };
        assert(after[p] == records[origin]);
        lemma_record_at(after, p);
        lemma_record_at(records, origin);
    }
    assert(records_map(after) =~= records_map(records).remove(gone));
}

/// One call of `upsert`: who registers, with which addresses, and when.
pub struct Registration {
    pub identity: Seq<char>,
    pub addresses: Seq<Seq<char>>,
    pub now: i64,
}

/// The registry after a list of registrations, made one after the other.
pub open spec fn upserted_all(
    peers: Map<Seq<char>, PeerRecord>,
    registrations: Seq<Registration>,
) -> Map<Seq<char>, PeerRecord>
    decreases registrations.len(),
{
    if registrations.len() == 0 {
        peers
    } else {
        let last = registrations.last();
        upserted(
            upserted_all(peers, registrations.drop_last()),
            last.identity,
            last.addresses,
            last.now,
        )
    }
}

/// No two registrations of the list are made by the same peer.
pub open spec fn distinct_identities(registrations: Seq<Registration>) -> bool {
    forall|i: int, j: int|
        0 <= i < j < registrations.len() ==> registrations[i].identity
            != registrations[j].identity
}

/// A registration leaves exactly the fresh record under its identity and
/// touches no other record.
pub proof fn law_upsert_replaces(
    peers: Map<Seq<char>, PeerRecord>,
    peer: Seq<char>,
    addresses: Seq<Seq<char>>,
    now: i64,
)
    ensures
        upserted(peers, peer, addresses, now).dom() == peers.dom().insert(peer),
        upserted(peers, peer, addresses, now)[peer] == fresh_record(peer, addresses, now),
        upserted(peers, peer, addresses, now)[peer].ping.is_none(),
        forall|other: Seq<char>|
            other != peer && peers.dom().contains(other) ==> upserted(
                peers,
                peer,
                addresses,
                now,
            )[other] == peers[other],
{
    assert(upserted(peers, peer, addresses, now).dom() =~= peers.dom().insert(peer));
}

/// Removing a registered peer leaves no record of it, and removing a peer
/// that is not registered changes nothing.
pub proof fn law_remove(peers: Map<Seq<char>, PeerRecord>, peer: Seq<char>)
    ensures
        !peers.remove(peer).dom().contains(peer),
        !peers.dom().contains(peer) ==> peers.remove(peer) == peers,
        forall|other: Seq<char>|
            other != peer && peers.dom().contains(other) ==> peers.remove(peer).dom().contains(
                other,
            ) && peers.remove(peer)[other] == peers[other],
{
    if !peers.dom().contains(peer) {
        assert(peers.remove(peer) =~= peers);
    }
}

/// An answer of a peer that is not registered changes nothing, and an
/// answer of a registered peer changes its round trip and its time only.
pub proof fn law_liveness(peers: Map<Seq<char>, PeerRecord>, peer: Seq<char>, rtt: u64, now: i64)
    ensures
        !peers.dom().contains(peer) ==> liveness_updated(peers, peer, rtt, now) == peers,
        liveness_updated(peers, peer, rtt, now).dom() == peers.dom(),
        peers.dom().contains(peer) ==> {
            let after = liveness_updated(peers, peer, rtt, now)[peer];
            &&& after.peer == peers[peer].peer
            &&& after.addresses == peers[peer].addresses
            &&& after.ping == Some(rtt)
            &&& after.last_seen == now
        },
{
    assert(liveness_updated(peers, peer, rtt, now).dom() =~= peers.dom());
}

/// Two registrations of different peers give the same registry in either
/// order.
pub proof fn law_distinct_upserts_commute(
    peers: Map<Seq<char>, PeerRecord>,
    first: Registration,
    second: Registration,
)
    requires
        first.identity != second.identity,
    ensures
        upserted_all(peers, seq![first, second]) == upserted_all(peers, seq![second, first]),
{
    let ab = seq![first, second];
    let ba = seq![second, first];
    assert(ab.drop_last() =~= seq![first]);
    assert(ba.drop_last() =~= seq![second]);
    assert(seq![first].drop_last() =~= Seq::<Registration>::empty());
    assert(seq![second].drop_last() =~= Seq::<Registration>::empty());
    reveal_with_fuel(upserted_all, 3);
    assert(upserted_all(peers, ab) =~= upserted_all(peers, ba));
}

/// Registrations of different peers all persist: made on an empty
/// registry, in whatever order, they leave as many records as there were
/// registrations, one for each peer, each with the data of its own
/// registration.
pub proof fn law_distinct_upserts_persist(registrations: Seq<Registration>)
    requires
        distinct_identities(registrations),
    ensures
        ({
            let after = upserted_all(Map::<Seq<char>, PeerRecord>::empty(), registrations);
            &&& after.dom().finite()
            &&& after.dom().len() == registrations.len()
            &&& forall|i: int|
                0 <= i < registrations.len() ==> after.dom().contains(
                    #[trigger] registrations[i].identity,
                ) && after[registrations[i].identity] == fresh_record(
                    registrations[i].identity,
                    registrations[i].addresses,
                    registrations[i].now,
                )
            &&& forall|peer: Seq<char>|
                after.dom().contains(peer) ==> exists|i: int|
                    0 <= i < registrations.len() && #[trigger] registrations[i].identity == peer
        }),
    decreases registrations.len(),
{
    let empty = Map::<Seq<char>, PeerRecord>::empty();
    let after = upserted_all(empty, registrations);
    if registrations.len() == 0 {
        assert(after.dom() =~= Set::<Seq<char>>::empty());
    } else {
        let front = registrations.drop_last();
        let last = registrations.last();
        let before = upserted_all(empty, front);
        law_distinct_upserts_persist(front);
        assert(!before.dom().contains(last.identity)) by {
            if before.dom().contains(last.identity) {
                let i = choose|i: int|
                    0 <= i < front.len() && #[trigger] front[i].identity == last.identity;
                assert(registrations[i].identity == registrations[registrations.len()
                    - 1].identity);
            }
        }
        assert(after.dom() =~= before.dom().insert(last.identity));
        assert forall|i: int| 0 <= i < registrations.len() implies after.dom().contains(
            #[trigger] registrations[i].identity,
        ) && after[registrations[i].identity] == fresh_record(
            registrations[i].identity,
            registrations[i].addresses,
            registrations[i].now,
        ) by {
            if i < front.len() {
                assert(front[i] == registrations[i]);
                assert(before.dom().contains(front[i].identity));
            }
        }
        assert forall|peer: Seq<char>| after.dom().contains(peer) implies exists|i: int|
            0 <= i < registrations.len() && #[trigger] registrations[i].identity == peer by {
            if peer == last.identity {
                assert(registrations[registrations.len() - 1].identity == peer);
            } else {
                let i = choose|i: int| 0 <= i < front.len() && #[trigger] front[i].identity == peer;
                assert(registrations[i].identity == peer);
            }
        }
    }
}

/// The peers that are registered now, at most one record for each identity.
/// The records are kept as a list, in the order in which their peers first
/// registered, and a peer is found by comparing identities as text.
pub struct Registry {
    entries: Vec<PeerStat>,
}

/// The values of a list of records, in order.
pub open spec fn record_views(entries: Seq<PeerStat>) -> Seq<PeerRecord> {
    Seq::new(entries.len(), |i: int| entries[i]@)
}

impl View for Registry {
    type V = Map<Seq<char>, PeerRecord>;

    /// The records, each under its peer's identity.
    open spec fn view(&self) -> Map<Seq<char>, PeerRecord> {
        records_map(self.records())
    }
}

impl Default for Registry {
    fn default() -> (registry: Registry)
        ensures
            registry@ == Map::<Seq<char>, PeerRecord>::empty(),
    {
        Registry::new()
    }
}

impl Registry {
    /// The records in the order in which a snapshot lists them.
    pub closed spec fn records(&self) -> Seq<PeerRecord> {
        record_views(self.entries@)
    }

    #[verifier::type_invariant]
    spec fn one_record_each(&self) -> bool {
        distinct_peers(self.records())
    }

    /// A registry without peers.
    pub fn new() -> (registry: Registry)
        ensures
            registry@ == Map::<Seq<char>, PeerRecord>::empty(),
            registry.records() == Seq::<PeerRecord>::empty(),
    {
        let registry = Registry { entries: Vec::new() };
        assert(registry.records() =~= Seq::<PeerRecord>::empty());
        assert(registry@ =~= Map::<Seq<char>, PeerRecord>::empty());
        registry
    }

    /// The number of registered peers.
    pub fn len(&self) -> (count: usize)
        ensures
            count == self.records().len(),
            count == self@.dom().len(),
            self@.dom().finite(),
    {
        proof {
            use_type_invariant(self);
            lemma_records_count(self.records());
        }
        self.entries.len()
    }

    /// Whether no peer is registered.
    pub fn is_empty(&self) -> (empty: bool)
        ensures
            empty == (self@ == Map::<Seq<char>, PeerRecord>::empty()),
            empty == (self.records().len() == 0),
    {
        proof {
            use_type_invariant(self);
            lemma_records_count(self.records());
            if self.records().len() == 0 {
                assert(self@ =~= Map::<Seq<char>, PeerRecord>::empty());
            }
        }
        self.entries.len() == 0
    }

    /// Takes the entries out, to be changed and put back.
    fn take_entries(&mut self) -> (entries: Vec<PeerStat>)
        ensures
            record_views(entries@) == old(self).records(),
            distinct_peers(record_views(entries@)),
    {
        proof {
            use_type_invariant(&*self);
        }
        let mut taken = Registry { entries: Vec::new() };
        std::mem::swap(self, &mut taken);
        taken.entries
    }

    /// The place of the record of `identity` among the entries.
    fn position(&self, identity: &str) -> (place: Option<usize>)
        ensures
            match place {
                Some(i) => i < self.records().len() && self.records()[i as int].peer == identity@,
                None => !has_peer(self.records(), identity@),
            },
    {
        let wanted = identity.to_owned();
        let mut i: usize = 0;
        while i < self.entries.len()
            invariant
                i <= self.entries.len(),
                wanted@ == identity@,
                forall|j: int| 0 <= j < i ==> self.entries[j].peer@ != identity@,
            decreases self.entries.len() - i,
        {
            if self.entries[i].peer == wanted {
                return Some(i);
            }
            i += 1;
        }
        None
    }

    /// Whether `identity` is registered.
    pub fn contains(&self, identity: &str) -> (known: bool)
        ensures
            known == self@.dom().contains(identity@),
    {
        self.position(identity).is_some()
    }

    /// A copy of the record of `identity`, if it is registered.
    pub fn get(&self, identity: &str) -> (record: Option<PeerStat>)
        ensures
            match record {
                Some(r) => self@.dom().contains(identity@) && r@ == self@[identity@],
                None => !self@.dom().contains(identity@),
            },
    {
        match self.position(identity) {
            Some(i) => {
                proof {
                    use_type_invariant(self);
                    lemma_record_at(self.records(), i as int);
                }
                Some(self.entries[i].clone())
            },
            None => None,
        }
    }

    /// Registers `identity` with `addresses` at the time `now`: the record
    /// is created, or replaced as a whole, and no round trip is known of it.
    pub fn upsert(&mut self, identity: &str, addresses: Vec<AddrInfo>, now: i64)
        ensures
            final(self)@ == upserted(old(self)@, identity@, address_texts(addresses@), now),
    {
        proof {
            use_type_invariant(&*self);
        }
        let record = PeerStat {
            peer: identity.to_owned(),
            addrinfo: addresses,
            ping: None,
            last_seen: now,
        };
        let place = self.position(identity);
        let mut entries = self.take_entries();
        match place {
            Some(i) => {
                proof {
                    lemma_update_record(record_views(entries@), i as int, record@);
                    assert(record_views(entries@.update(i as int, record)) =~= record_views(
                        entries@,
                    ).update(i as int, record@));
                }
                entries.set(i, record);
            },
            None => {
                proof {
                    lemma_push_record(record_views(entries@), record@);
                    assert(record_views(entries@.push(record)) =~= record_views(entries@).push(
                        record@,
                    ));
                }
                entries.push(record);
            },
        }
        *self = Registry { entries };
    }

    /// Records an answer of `identity` to a liveness probe: its round trip
    /// and the time `now`. An identity that is not registered changes
    /// nothing; the result says whether a record was changed.
    pub fn update_liveness(&mut self, identity: &str, rtt: u64, now: i64) -> (known: bool)
        ensures
            final(self)@ == liveness_updated(old(self)@, identity@, rtt, now),
            known == old(self)@.dom().contains(identity@),
    {
        proof {
            use_type_invariant(&*self);
        }
        match self.position(identity) {
            Some(i) => {
                let record = PeerStat {
                    peer: self.entries[i].peer.clone(),
                    addrinfo: clone_addresses(&self.entries[i].addrinfo),
                    ping: Some(rtt),
                    last_seen: now,
                };
                let mut entries = self.take_entries();
                proof {
                    lemma_record_at(record_views(entries@), i as int);
                    assert(record@ == refreshed_record(record_views(entries@)[i as int], rtt, now));
                    lemma_update_record(record_views(entries@), i as int, record@);
                    assert(record_views(entries@.update(i as int, record)) =~= record_views(
                        entries@,
                    ).update(i as int, record@));
                }
                entries.set(i, record);
                *self = Registry { entries };
                true
            },
            None => false,
        }
    }

    /// Ends the registration of `identity`. An identity that is not
    /// registered changes nothing; the result says whether a record left.
    pub fn remove(&mut self, identity: &str) -> (known: bool)
        ensures
            final(self)@ == old(self)@.remove(identity@),
            known == old(self)@.dom().contains(identity@),
    {
        proof {
            use_type_invariant(&*self);
        }
        match self.position(identity) {
            Some(i) => {
                let mut entries = self.take_entries();
                proof {
                    lemma_record_at(record_views(entries@), i as int);
                    lemma_remove_record(record_views(entries@), i as int);
                    assert(record_views(entries@.remove(i as int)) =~= record_views(
                        entries@,
                    ).remove(i as int));
                }
                entries.remove(i);
                *self = Registry { entries };
                true
            },
            None => {
                assert(self@.remove(identity@) =~= self@);
                false
            },
        }
    }

    /// A copy of every record, independent of the registry: each registered
    /// peer once, with the record that the registry holds of it.
    pub fn snapshot(&self) -> (copy: Vec<PeerStat>)
        ensures
            record_views(copy@) == self.records(),
            distinct_peers(record_views(copy@)),
            records_map(record_views(copy@)) == self@,
            copy.len() == self@.dom().len(),
    {
        let mut copy: Vec<PeerStat> = Vec::new();
        let mut i: usize = 0;
        while i < self.entries.len()
            invariant
                i <= self.entries.len(),
                copy.len() == i,
                forall|j: int| 0 <= j < i ==> copy[j]@ == self.entries[j]@,
            decreases self.entries.len() - i,
        {
            copy.push(self.entries[i].clone());
            i += 1;
        }
        proof {
            use_type_invariant(self);
            assert(record_views(copy@) =~= self.records());
            lemma_records_count(self.records());
        }
        copy
    }
}

} // verus!
