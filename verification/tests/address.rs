use libp2p::Multiaddr;
use rendezvous_registry::address::{normalize_address, peer_suffix};
use std::str::FromStr;

const ALICE: &str = "12D3KooWDpJ7As7BWAwRMfu1VU2WCqNjvq387JEYKDBj4kx6nXTN";
const BOB: &str = "12D3KooWRNw2pJC9748Fmq4WNV27HoSTcX3r37132FLkQMrbKAiC";

fn addr(text: &str) -> Multiaddr {
    Multiaddr::from_str(text).unwrap()
}

#[test]
fn suffix_is_appended_to_a_bare_address() {
    let normalized = normalize_address(&addr("/ip4/1.2.3.4/tcp/4001"), ALICE).unwrap();
    assert_eq!(
        normalized.to_string(),
        format!("/ip4/1.2.3.4/tcp/4001/p2p/{}", ALICE)
    );
    let mut expected = addr("/ip4/1.2.3.4/tcp/4001").to_vec();
    expected.extend(peer_suffix(ALICE).unwrap().to_vec());
    assert_eq!(normalized.to_vec(), expected);
}

#[test]
fn suffixed_address_is_left_unchanged() {
    let full = addr(&format!("/ip4/1.2.3.4/tcp/4001/p2p/{}", ALICE));
    let normalized = normalize_address(&full, ALICE).unwrap();
    assert_eq!(normalized, full);
    assert_eq!(normalized.to_vec(), full.to_vec());
}

#[test]
fn normalizing_twice_is_normalizing_once() {
    let once = normalize_address(&addr("/ip6/::1/tcp/9000"), BOB).unwrap();
    let twice = normalize_address(&once, BOB).unwrap();
    assert_eq!(once, twice);
    assert_eq!(twice.to_string(), format!("/ip6/::1/tcp/9000/p2p/{}", BOB));
}

#[test]
fn suffix_of_another_peer_does_not_count() {
    let other = addr(&format!("/ip4/10.0.0.1/tcp/1/p2p/{}", BOB));
    let normalized = normalize_address(&other, ALICE).unwrap();
    assert_eq!(
        normalized.to_string(),
        format!("/ip4/10.0.0.1/tcp/1/p2p/{}/p2p/{}", BOB, ALICE)
    );
}

#[test]
fn empty_address_becomes_the_suffix() {
    let normalized = normalize_address(&Multiaddr::empty(), ALICE).unwrap();
    assert_eq!(normalized.to_string(), format!("/p2p/{}", ALICE));
}

#[test]
fn identity_that_is_no_peer_id_is_refused() {
    assert!(normalize_address(&addr("/ip4/1.2.3.4/tcp/4001"), "not a peer").is_none());
    assert!(normalize_address(&addr("/ip4/1.2.3.4/tcp/4001"), "").is_none());
    assert!(peer_suffix("0OIl").is_none());
}

#[test]
fn peer_suffix_is_the_p2p_component() {
    let suffix = peer_suffix(ALICE).unwrap();
    assert_eq!(suffix.to_string(), format!("/p2p/{}", ALICE));
    assert_eq!(suffix, addr(&format!("/p2p/{}", ALICE)));
    assert!(!suffix.is_empty());
}
