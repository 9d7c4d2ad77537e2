//! What each event of the network engine does to the registry.
use crate::address::{
    has_suffix, lemma_normalized_ends_with, multiaddr_bytes, multiaddr_text, multiaddr_to_string,
    normalize_address, normalized, p2p_component, peer_suffix,
};
use crate::clock::epoch_seconds;
use crate::registry::{
    address_texts, distinct_peers, fresh_record, has_peer, lemma_record_at, lemma_records_count,
    liveness_updated, place_of, records_map, upserted, AddrInfo, PeerRecord, Registry,
};
use libp2p::Multiaddr;
use vstd::prelude::*;

verus! {

/// How a liveness probe ended.
#[derive(Debug, Clone, Copy, PartialEq, Eq)]
pub enum LivenessOutcome {
    /// The peer answered after this many milliseconds.
    Success { rtt_millis: u128 },
    /// The peer did not answer.
    Failure,
}

/// An event of the network engine. Identities are given as text.
#[derive(Debug, PartialEq, Eq)]
pub enum EngineEvent {
    /// A peer registered its addresses under a namespace.
    RegistrationCreated { identity: String, namespace: String, addresses: Vec<Multiaddr> },
    /// The registration of a peer ran out.
    RegistrationExpired { identity: String },
    /// A peer asked for registrations and was given `count` of them.
    DiscoveryServed { enquirer: String, count: usize },
    /// A liveness probe of a peer ended.
    LivenessResult { identity: String, outcome: LivenessOutcome },
    /// A connection to a peer was opened.
    ConnectionEstablished { identity: String },
    /// A connection to a peer was closed.
    ConnectionClosed { identity: String },
    /// Any other event of the engine.
    Unrecognized,
}

/// What handling an event did.
#[derive(Debug, Clone, Copy, PartialEq, Eq)]
pub enum Outcome {
    /// The peer's record was created, or replaced by a fresh one.
    Registered,
    /// A registration under an identity that is no peer id was dropped.
    Rejected,
    /// The peer's record was removed.
    Expired,
    /// A registration ran out of which the registry held no record.
    AlreadyGone,
    /// The round trip was written into the peer's record.
    LivenessRecorded,
    /// A peer that is not registered answered a probe: nothing changed.
    LivenessDropped,
    /// The event is only worth a line in the log.
    Noted,
    /// The event is none that the registry knows.
    Ignored,
}

/// The bytes of a list of multiaddresses, in order.
pub open spec fn address_bytes(addresses: Seq<Multiaddr>) -> Seq<Seq<u8>> {
    Seq::new(addresses.len(), |i: int| multiaddr_bytes(addresses[i]))
}

/// The texts of a list of addresses once each names the peer.
pub open spec fn normalized_texts(addresses: Seq<Seq<u8>>, suffix: Seq<u8>) -> Seq<Seq<char>> {
    Seq::new(addresses.len(), |i: int| multiaddr_text(normalized(addresses[i], suffix)))
}

/// A round trip in milliseconds as a record holds it: the low 64 bits.
pub open spec fn ping_millis(rtt_millis: u128) -> u64 {
    (rtt_millis as int % 0x1_0000_0000_0000_0000) as u64
}

/// The registry after `identity` registered `addresses` at the time `now`.
/// An identity that is no peer id registers nothing.
pub open spec fn registered(
    peers: Map<Seq<char>, PeerRecord>,
    identity: Seq<char>,
    addresses: Seq<Seq<u8>>,
    now: i64,
) -> Map<Seq<char>, PeerRecord> {
    match p2p_component(identity) {
        Some(suffix) => upserted(peers, identity, normalized_texts(addresses, suffix), now),
        None => peers,
    }
}

/// The registry after an event that is handled at the time `now`.
pub open spec fn dispatched(peers: Map<Seq<char>, PeerRecord>, event: EngineEvent, now: i64) -> Map<
    Seq<char>,
    PeerRecord,
> {
    match event {
        EngineEvent::RegistrationCreated { identity, namespace, addresses } => registered(
            peers,
            identity@,
            address_bytes(addresses@),
            now,
        ),
        EngineEvent::RegistrationExpired { identity } => peers.remove(identity@),
        EngineEvent::LivenessResult {
            identity,
            outcome: LivenessOutcome::Success { rtt_millis },
        } => liveness_updated(peers, identity@, ping_millis(rtt_millis), now),
        _ => peers,
    }
}

/// What handling an event reports.
pub open spec fn outcome_of(peers: Map<Seq<char>, PeerRecord>, event: EngineEvent) -> Outcome {
    match event {
        EngineEvent::RegistrationCreated { identity, namespace, addresses } => {
            if p2p_component(identity@).is_some() {
                Outcome::Registered
            } else {
                Outcome::Rejected
            }
        },
        EngineEvent::RegistrationExpired { identity } => {
            if peers.dom().contains(identity@) {
                Outcome::Expired
            } else {
                Outcome::AlreadyGone
            }
        },
        EngineEvent::LivenessResult {
            identity,
            outcome: LivenessOutcome::Success { rtt_millis },
        } => {
            if peers.dom().contains(identity@) {
                Outcome::LivenessRecorded
            } else {
                Outcome::LivenessDropped
            }
        },
        EngineEvent::Unrecognized => Outcome::Ignored,
        _ => Outcome::Noted,
    }
}

/// The peer whose record an event can change, if it can change any.
pub open spec fn subject(event: EngineEvent) -> Option<Seq<char>> {
    match event {
        EngineEvent::RegistrationCreated { identity, namespace, addresses } => Some(identity@),
        EngineEvent::RegistrationExpired { identity } => Some(identity@),
        EngineEvent::LivenessResult {
            identity,
            outcome: LivenessOutcome::Success { rtt_millis },
        } => Some(identity@),
        _ => None,
    }
}

/// The round trip that a record keeps of a measurement.
pub fn narrow_rtt(rtt_millis: u128) -> (ping: u64)
    ensures
        ping == ping_millis(rtt_millis),
{
    (rtt_millis % 0x1_0000_0000_0000_0000u128) as u64
}

/// Normalizes the addresses of a registration and turns them into text.
/// `None` where `identity` is not the text of a peer id.
pub fn normalize_addresses(addresses: &Vec<Multiaddr>, identity: &str) -> (result: Option<
    Vec<AddrInfo>,
>)
    ensures
        match result {
            Some(infos) => p2p_component(identity@).is_some() && address_texts(infos@)
                == normalized_texts(address_bytes(addresses@), p2p_component(identity@).unwrap()),
            None => p2p_component(identity@).is_none(),
        },
{
    if peer_suffix(identity).is_none() {
        return None;
    }
    let ghost suffix = p2p_component(identity@).unwrap();
    let mut infos: Vec<AddrInfo> = Vec::new();
    let mut i: usize = 0;
    while i < addresses.len()
        invariant
            i <= addresses.len(),
            infos.len() == i,
            p2p_component(identity@) == Some(suffix),
            forall|j: int|
                0 <= j < i ==> infos[j]@ == multiaddr_text(
                    normalized(multiaddr_bytes(addresses[j]), suffix),
                ),
        decreases addresses.len() - i,
    {
        match normalize_address(&addresses[i], identity) {
            Some(address) => {
                infos.push(AddrInfo { address: multiaddr_to_string(&address) });
            },
            None => {
                return None;
            },
        }
        i += 1;
    }
    assert(address_texts(infos@) =~= normalized_texts(address_bytes(addresses@), suffix));
    Some(infos)
}

/// Handles one event at the time `now`: a registration creates or replaces
/// the peer's record, an expiry removes it, an answer to a liveness probe
/// refreshes the record of a registered peer, and every other event leaves
/// the registry as it is.
pub fn handle_event_at(registry: &mut Registry, event: &EngineEvent, now: i64) -> (outcome: Outcome)
    ensures
        final(registry)@ == dispatched(old(registry)@, *event, now),
        outcome == outcome_of(old(registry)@, *event),
{
    match event {
        EngineEvent::RegistrationCreated { identity, namespace, addresses } => {
            match normalize_addresses(addresses, identity.as_str()) {
                Some(infos) => {
                    registry.upsert(identity.as_str(), infos, now);
                    Outcome::Registered
                },
                None => Outcome::Rejected,
            }
        },
        EngineEvent::RegistrationExpired { identity } => {
            if registry.remove(identity.as_str()) {
                Outcome::Expired
            } else {
                Outcome::AlreadyGone
            }
        },
        EngineEvent::LivenessResult {
            identity,
            outcome: LivenessOutcome::Success { rtt_millis },
        } => {
            if registry.update_liveness(identity.as_str(), narrow_rtt(*rtt_millis), now) {
                Outcome::LivenessRecorded
            } else {
                Outcome::LivenessDropped
            }
        },
        EngineEvent::Unrecognized => Outcome::Ignored,
        _ => Outcome::Noted,
    }
}

/// Handles one event at the present time, as the clock gives it.
pub fn handle_event(registry: &mut Registry, event: &EngineEvent) -> (outcome: Outcome)
    ensures
        exists|now: i64| final(registry)@ == dispatched(old(registry)@, *event, now),
        outcome == outcome_of(old(registry)@, *event),
{
    let now = epoch_seconds();
    handle_event_at(registry, event, now)
}

/// A registration creates exactly one record. After the peer `identity`
/// registered one address, every listing of the registry
/// holds a record of the peer at one place and no other; the record has one
/// address, the text of bytes that end with the component naming the peer;
/// no round trip is known of it. On a registry that was empty it is the
/// only record.
pub proof fn law_registration_creates_one_record(
    peers: Map<Seq<char>, PeerRecord>,
    identity: String,
    namespace: String,
    addresses: Vec<Multiaddr>,
    now: i64,
    listing: Seq<PeerRecord>,
)
    requires
        addresses@.len() == 1,
        distinct_peers(listing),
        records_map(listing) == dispatched(
            peers,
            EngineEvent::RegistrationCreated { identity, namespace, addresses },
            now,
        ),
    ensures
        p2p_component(identity@).is_some() ==> exists|place: int|
            {
                &&& 0 <= place < listing.len()
                &&& (#[trigger] listing[place]).peer == identity@
                &&& forall|other: int|
                    0 <= other < listing.len() && listing[other].peer == identity@ ==> other
                        == place
                &&& listing[place].ping.is_none()
                &&& listing[place].last_seen == now
                &&& listing[place].addresses.len() == 1
                &&& exists|bytes: Seq<u8>|
                    has_suffix(bytes, p2p_component(identity@).unwrap())
                        && listing[place].addresses[0] == multiaddr_text(bytes)
                &&& peers == Map::<Seq<char>, PeerRecord>::empty() ==> listing.len() == 1
            },
{
    if p2p_component(identity@).is_some() {
        let suffix = p2p_component(identity@).unwrap();
        let address = addresses@[0];
        let after = dispatched(
            peers,
            EngineEvent::RegistrationCreated { identity, namespace, addresses },
            now,
        );
        let texts = normalized_texts(address_bytes(addresses@), suffix);
        assert(after == upserted(peers, identity@, texts, now));
        assert(after.dom().contains(identity@));
        let place = place_of(listing, identity@);
        assert(has_peer(listing, identity@));
        lemma_record_at(listing, place);
        assert(listing[place] == fresh_record(identity@, texts, now));
        assert forall|other: int|
            0 <= other < listing.len() && listing[other].peer == identity@ implies other
            == place by {
            lemma_record_at(listing, other);
        }
        let bytes = normalized(multiaddr_bytes(address), suffix);
        lemma_normalized_ends_with(multiaddr_bytes(address), suffix);
        assert(addresses@.len() == 1);
        assert(texts[0] == multiaddr_text(bytes));
        if peers == Map::<Seq<char>, PeerRecord>::empty() {
            lemma_records_count(listing);
            assert(after.dom() =~= set![identity@]);
        }
    }
}

/// Expiry removes. After the registration of a peer ran out, the registry
/// holds no record of it, whatever came before; where it held none, the
/// expiry changes nothing.
pub proof fn law_expiry_removes(peers: Map<Seq<char>, PeerRecord>, identity: String, now: i64)
    ensures
        !dispatched(peers, EngineEvent::RegistrationExpired { identity }, now).dom().contains(
            identity@,
        ),
        !peers.dom().contains(identity@) ==> dispatched(
            peers,
            EngineEvent::RegistrationExpired { identity },
            now,
        ) == peers,
{
    if !peers.dom().contains(identity@) {
        assert(peers.remove(identity@) =~= peers);
    }
}

/// Liveness of an unknown peer is dropped. An answer to a probe from a
/// peer that is not registered leaves the registry as it is: no record is
/// created.
pub proof fn law_liveness_of_unknown_peer(
    peers: Map<Seq<char>, PeerRecord>,
    identity: String,
    outcome: LivenessOutcome,
    now: i64,
)
    requires
        !peers.dom().contains(identity@),
    ensures
        dispatched(peers, EngineEvent::LivenessResult { identity, outcome }, now) == peers,
{
}

/// A new registration replaces the old record as a whole. After a peer
/// registered, answered a probe and registered again, its record holds the
/// addresses of the second registration and no round trip.
pub proof fn law_reregistration_replaces(
    peers: Map<Seq<char>, PeerRecord>,
    identity: String,
    first: Vec<Multiaddr>,
    rtt_millis: u128,
    second: Vec<Multiaddr>,
    namespace: String,
    times: (i64, i64, i64),
)
    ensures
        p2p_component(identity@).is_some() ==> {
            let registered_once = dispatched(
                peers,
                EngineEvent::RegistrationCreated { identity, namespace, addresses: first },
                times.0,
            );
            let probed = dispatched(
                registered_once,
                EngineEvent::LivenessResult {
                    identity,
                    outcome: LivenessOutcome::Success { rtt_millis },
                },
                times.1,
            );
            let registered_twice = dispatched(
                probed,
                EngineEvent::RegistrationCreated { identity, namespace, addresses: second },
                times.2,
            );
            &&& probed[identity@].ping == Some(ping_millis(rtt_millis))
            &&& registered_twice.dom().contains(identity@)
            &&& registered_twice[identity@] == fresh_record(
                identity@,
                normalized_texts(address_bytes(second@), p2p_component(identity@).unwrap()),
                times.2,
            )
            &&& registered_twice[identity@].ping.is_none()
        },
{
}

/// An event changes the record of its own peer at most: every other peer
/// is registered after it exactly if it was before, with the same record.
pub proof fn law_event_touches_one_peer(
    peers: Map<Seq<char>, PeerRecord>,
    event: EngineEvent,
    now: i64,
    other: Seq<char>,
)
    requires
        subject(event) != Some(other),
    ensures
        dispatched(peers, event, now).dom().contains(other) == peers.dom().contains(other),
        peers.dom().contains(other) ==> dispatched(peers, event, now)[other] == peers[other],
{
}

/// Only a registration makes a peer registered: after any other event,
/// whoever is registered was registered before. And only an expiry ends a
/// registration: after any other event, whoever was registered still is.
pub proof fn law_registration_lifecycle(
    peers: Map<Seq<char>, PeerRecord>,
    event: EngineEvent,
    now: i64,
    peer: Seq<char>,
)
    ensures
        !(event is RegistrationCreated) && dispatched(peers, event, now).dom().contains(peer)
            ==> peers.dom().contains(peer),
        !(event is RegistrationExpired) && peers.dom().contains(peer) ==> dispatched(
            peers,
            event,
            now,
        ).dom().contains(peer),
        event is LivenessResult && peers.dom().contains(peer) ==> dispatched(
            peers,
            event,
            now,
        )[peer].addresses == peers[peer].addresses,
{
}

} // verus!
