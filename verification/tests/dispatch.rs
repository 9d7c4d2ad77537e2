use libp2p::Multiaddr;
use rendezvous_registry::dispatch::{
    handle_event, handle_event_at, narrow_rtt, normalize_addresses, EngineEvent, LivenessOutcome,
    Outcome,
};
use rendezvous_registry::registry::{AddrInfo, Registry};
use std::str::FromStr;

const PEER: &str = "12D3KooWDpJ7As7BWAwRMfu1VU2WCqNjvq387JEYKDBj4kx6nXTN";
const OTHER: &str = "12D3KooWRNw2pJC9748Fmq4WNV27HoSTcX3r37132FLkQMrbKAiC";

fn addr(text: &str) -> Multiaddr {
    Multiaddr::from_str(text).unwrap()
}

fn created(identity: &str, addresses: &[&str]) -> EngineEvent {
    EngineEvent::RegistrationCreated {
        identity: identity.to_string(),
        namespace: "rendezvous".to_string(),
        addresses: addresses.iter().map(|a| addr(a)).collect(),
    }
}

fn expired(identity: &str) -> EngineEvent {
    EngineEvent::RegistrationExpired { identity: identity.to_string() }
}

fn answered(identity: &str, rtt_millis: u128) -> EngineEvent {
    EngineEvent::LivenessResult {
        identity: identity.to_string(),
        outcome: LivenessOutcome::Success { rtt_millis },
    }
}

#[test]
fn registration_creates_exactly_one_record() {
    let mut registry = Registry::new();
    let outcome = handle_event_at(&mut registry, &created(PEER, &["/ip4/1.2.3.4/tcp/4001"]), 1700000000);
    assert_eq!(outcome, Outcome::Registered);
    let snapshot = registry.snapshot();
    assert_eq!(snapshot.len(), 1);
    assert_eq!(snapshot[0].peer, PEER);
    assert_eq!(snapshot[0].addrinfo.len(), 1);
    assert!(snapshot[0].addrinfo[0].address.ends_with(&format!("/p2p/{}", PEER)));
}

#[test]
fn registered_record_has_the_served_shape() {
    let mut registry = Registry::new();
    handle_event_at(&mut registry, &created(PEER, &["/ip4/1.2.3.4/tcp/4001"]), 1700000123);
    let snapshot = registry.snapshot();
    assert_eq!(snapshot.len(), 1);
    assert_eq!(snapshot[0].peer, PEER);
    assert_eq!(
        snapshot[0].addrinfo,
        vec![AddrInfo { address: format!("/ip4/1.2.3.4/tcp/4001/p2p/{}", PEER) }]
    );
    assert_eq!(snapshot[0].ping, None);
    assert_eq!(snapshot[0].last_seen, 1700000123);
}

#[test]
fn registration_keeps_the_order_of_addresses() {
    let mut registry = Registry::new();
    let suffixed = format!("/ip4/5.6.7.8/tcp/2/p2p/{}", PEER);
    handle_event_at(
        &mut registry,
        &created(PEER, &["/ip4/1.2.3.4/tcp/1", &suffixed, "/ip6/::1/udp/3"]),
        5,
    );
    let record = registry.get(PEER).unwrap();
    assert_eq!(
        record.addrinfo,
        vec![
            AddrInfo { address: format!("/ip4/1.2.3.4/tcp/1/p2p/{}", PEER) },
            AddrInfo { address: suffixed.clone() },
            AddrInfo { address: format!("/ip6/::1/udp/3/p2p/{}", PEER) },
        ]
    );
}

#[test]
fn registration_without_addresses_is_recorded() {
    let mut registry = Registry::new();
    assert_eq!(handle_event_at(&mut registry, &created(PEER, &[]), 9), Outcome::Registered);
    let record = registry.get(PEER).unwrap();
    assert!(record.addrinfo.is_empty());
    assert_eq!(record.last_seen, 9);
}

#[test]
fn registration_under_a_malformed_identity_is_rejected() {
    let mut registry = Registry::new();
    handle_event_at(&mut registry, &created(OTHER, &["/ip4/9.9.9.9/tcp/9"]), 1);
    let before = registry.snapshot();
    let outcome = handle_event_at(&mut registry, &created("nobody", &["/ip4/1.2.3.4/tcp/1"]), 2);
    assert_eq!(outcome, Outcome::Rejected);
    assert_eq!(registry.snapshot(), before);
    assert_eq!(handle_event_at(&mut registry, &created("nobody", &[]), 2), Outcome::Rejected);
    assert_eq!(registry.snapshot(), before);
}

#[test]
fn expiry_removes_the_record() {
    let mut registry = Registry::new();
    handle_event_at(&mut registry, &created(PEER, &["/ip4/1.2.3.4/tcp/4001"]), 1);
    handle_event_at(&mut registry, &created(OTHER, &["/ip4/1.2.3.5/tcp/4001"]), 2);
    assert_eq!(handle_event_at(&mut registry, &expired(PEER), 3), Outcome::Expired);
    let snapshot = registry.snapshot();
    assert_eq!(snapshot.len(), 1);
    assert_eq!(snapshot[0].peer, OTHER);
}

#[test]
fn expiry_of_an_absent_peer_is_a_no_op() {
    let mut registry = Registry::new();
    handle_event_at(&mut registry, &created(OTHER, &["/ip4/1.2.3.5/tcp/4001"]), 2);
    let before = registry.snapshot();
    assert_eq!(handle_event_at(&mut registry, &expired(PEER), 3), Outcome::AlreadyGone);
    assert_eq!(registry.snapshot(), before);
}

#[test]
fn liveness_of_an_unknown_peer_is_dropped() {
    let mut registry = Registry::new();
    assert_eq!(handle_event_at(&mut registry, &answered(PEER, 12), 3), Outcome::LivenessDropped);
    assert!(registry.is_empty());
    handle_event_at(&mut registry, &created(OTHER, &["/ip4/1.2.3.5/tcp/4001"]), 4);
    let before = registry.snapshot();
    assert_eq!(handle_event_at(&mut registry, &answered(PEER, 12), 5), Outcome::LivenessDropped);
    assert_eq!(registry.snapshot(), before);
}

#[test]
fn liveness_of_a_registered_peer_is_recorded() {
    let mut registry = Registry::new();
    handle_event_at(&mut registry, &created(PEER, &["/ip4/1.2.3.4/tcp/4001"]), 100);
    assert_eq!(handle_event_at(&mut registry, &answered(PEER, 37), 105), Outcome::LivenessRecorded);
    let record = registry.get(PEER).unwrap();
    assert_eq!(record.ping, Some(37));
    assert_eq!(record.last_seen, 105);
    assert_eq!(
        record.addrinfo,
        vec![AddrInfo { address: format!("/ip4/1.2.3.4/tcp/4001/p2p/{}", PEER) }]
    );
}

#[test]
fn reregistration_replaces_addresses_and_clears_ping() {
    let mut registry = Registry::new();
    handle_event_at(&mut registry, &created(PEER, &["/ip4/1.1.1.1/tcp/1"]), 1);
    handle_event_at(&mut registry, &answered(PEER, 20), 2);
    assert_eq!(registry.get(PEER).unwrap().ping, Some(20));
    handle_event_at(&mut registry, &created(PEER, &["/ip4/2.2.2.2/tcp/2"]), 3);
    let snapshot = registry.snapshot();
    assert_eq!(snapshot.len(), 1);
    assert_eq!(
        snapshot[0].addrinfo,
        vec![AddrInfo { address: format!("/ip4/2.2.2.2/tcp/2/p2p/{}", PEER) }]
    );
    assert_eq!(snapshot[0].ping, None);
    assert_eq!(snapshot[0].last_seen, 3);
}

#[test]
fn other_events_leave_the_registry_alone() {
    let mut registry = Registry::new();
    handle_event_at(&mut registry, &created(PEER, &["/ip4/1.1.1.1/tcp/1"]), 1);
    let before = registry.snapshot();
    let failed = EngineEvent::LivenessResult {
        identity: PEER.to_string(),
        outcome: LivenessOutcome::Failure,
    };
    assert_eq!(handle_event_at(&mut registry, &failed, 2), Outcome::Noted);
    let served = EngineEvent::DiscoveryServed { enquirer: OTHER.to_string(), count: 1 };
    assert_eq!(handle_event_at(&mut registry, &served, 3), Outcome::Noted);
    let opened = EngineEvent::ConnectionEstablished { identity: PEER.to_string() };
    assert_eq!(handle_event_at(&mut registry, &opened, 4), Outcome::Noted);
    let closed = EngineEvent::ConnectionClosed { identity: PEER.to_string() };
    assert_eq!(handle_event_at(&mut registry, &closed, 5), Outcome::Noted);
    assert_eq!(handle_event_at(&mut registry, &EngineEvent::Unrecognized, 6), Outcome::Ignored);
    assert_eq!(registry.snapshot(), before);
}

#[test]
fn round_trip_keeps_its_low_64_bits() {
    assert_eq!(narrow_rtt(0), 0);
    assert_eq!(narrow_rtt(1500), 1500);
    assert_eq!(narrow_rtt(u64::MAX as u128), u64::MAX);
    assert_eq!(narrow_rtt(u64::MAX as u128 + 1), 0);
    assert_eq!(narrow_rtt((1u128 << 64) + 5), 5);
    assert_eq!(narrow_rtt(u128::MAX), u64::MAX);
}

#[test]
fn oversized_round_trip_is_narrowed_in_the_record() {
    let mut registry = Registry::new();
    handle_event_at(&mut registry, &created(PEER, &[]), 1);
    handle_event_at(&mut registry, &answered(PEER, (3u128 << 64) + 77), 2);
    assert_eq!(registry.get(PEER).unwrap().ping, Some(77));
}

#[test]
fn normalize_addresses_gives_one_text_for_each_address() {
    let addresses = vec![addr("/ip4/1.2.3.4/tcp/1"), addr(&format!("/dns4/example.org/tcp/443/p2p/{}", PEER))];
    let infos = normalize_addresses(&addresses, PEER).unwrap();
    assert_eq!(
        infos,
        vec![
            AddrInfo { address: format!("/ip4/1.2.3.4/tcp/1/p2p/{}", PEER) },
            AddrInfo { address: format!("/dns4/example.org/tcp/443/p2p/{}", PEER) },
        ]
    );
    assert_eq!(normalize_addresses(&Vec::new(), PEER), Some(Vec::new()));
    assert_eq!(normalize_addresses(&addresses, "???"), None);
    assert_eq!(normalize_addresses(&Vec::new(), "???"), None);
}

#[test]
fn handle_event_stamps_the_present_time() {
    let mut registry = Registry::new();
    let outcome = handle_event(&mut registry, &created(PEER, &["/ip4/1.2.3.4/tcp/4001"]));
    assert_eq!(outcome, Outcome::Registered);
    let first = registry.get(PEER).unwrap().last_seen;
    assert!(first > 1_600_000_000);
    assert_eq!(handle_event(&mut registry, &answered(PEER, 8)), Outcome::LivenessRecorded);
    let record = registry.get(PEER).unwrap();
    assert!(record.last_seen >= first);
    assert_eq!(record.ping, Some(8));
    assert_eq!(handle_event(&mut registry, &expired(PEER)), Outcome::Expired);
    assert!(registry.is_empty());
}
