use libp2p::identity::Keypair;
use libp2p::Multiaddr;
use rendezvous_registry::config::{
    decimal_text, decode_secret_key, keypair_from_secret, listen_address_texts, listen_addresses,
    load_keypair, p2p_port, ConfigError, ServerConfig, DEFAULT_P2P_PORT, SECRET_KEY_LEN,
};
use std::str::FromStr;

const KEY: &str = "000102030405060708090a0b0c0d0e0f101112131415161718191A1B1C1D1E1F";

fn key_bytes() -> Vec<u8> {
    (0u8..32).collect()
}

#[test]
fn secret_key_is_decoded_from_hex() {
    assert_eq!(decode_secret_key(Some(KEY)), Ok(key_bytes()));
    let ff = "ff".repeat(32);
    assert_eq!(decode_secret_key(Some(&ff)), Ok(vec![0xff; 32]));
    let mixed = "aB".repeat(32);
    assert_eq!(decode_secret_key(Some(&mixed)), Ok(vec![0xab; 32]));
}

#[test]
fn missing_key_is_an_error() {
    assert_eq!(decode_secret_key(None), Err(ConfigError::MissingKey));
    assert!(matches!(load_keypair(None), Err(ConfigError::MissingKey)));
}

#[test]
fn key_that_is_no_hex_is_an_error() {
    assert_eq!(decode_secret_key(Some("xyz")), Err(ConfigError::InvalidKeyHex));
    assert_eq!(decode_secret_key(Some("abc")), Err(ConfigError::InvalidKeyHex));
    let bad = format!("{}g0", &KEY[..62]);
    assert_eq!(decode_secret_key(Some(&bad)), Err(ConfigError::InvalidKeyHex));
    let spaced = format!(" {}", &KEY[..63]);
    assert_eq!(decode_secret_key(Some(&spaced)), Err(ConfigError::InvalidKeyHex));
    assert!(matches!(load_keypair(Some("0x")), Err(ConfigError::InvalidKeyHex)));
}

#[test]
fn key_of_another_length_is_an_error() {
    assert_eq!(decode_secret_key(Some("")), Err(ConfigError::InvalidKeyLength));
    assert_eq!(decode_secret_key(Some(&KEY[..62])), Err(ConfigError::InvalidKeyLength));
    let long = format!("{}00", KEY);
    assert_eq!(decode_secret_key(Some(&long)), Err(ConfigError::InvalidKeyLength));
    assert!(matches!(load_keypair(Some("00ff")), Err(ConfigError::InvalidKeyLength)));
}

#[test]
fn keypair_is_that_of_the_secret_key() {
    let expected = Keypair::ed25519_from_bytes(key_bytes()).unwrap().public().to_peer_id();
    let loaded = load_keypair(Some(KEY)).unwrap();
    assert_eq!(loaded.public().to_peer_id(), expected);
    let direct = keypair_from_secret(&key_bytes()).unwrap();
    assert_eq!(direct.public().to_peer_id(), expected);
    let other = keypair_from_secret(&vec![7u8; 32]).unwrap();
    assert_ne!(other.public().to_peer_id(), expected);
}

#[test]
fn keypair_holds_the_decoded_secret() {
    let loaded = load_keypair(Some(KEY)).unwrap().try_into_ed25519().unwrap();
    assert_eq!(loaded.secret().as_ref(), key_bytes().as_slice());
    let direct = keypair_from_secret(&vec![7u8; 32]).unwrap().try_into_ed25519().unwrap();
    assert_eq!(direct.secret().as_ref(), vec![7u8; 32].as_slice());
}

#[test]
fn same_key_gives_the_same_identity() {
    let first = load_keypair(Some(KEY)).unwrap();
    let second = load_keypair(Some(KEY)).unwrap();
    assert_eq!(first.public(), second.public());
    assert_eq!(first.public().to_peer_id(), second.public().to_peer_id());
}

#[test]
fn case_of_the_key_does_not_matter() {
    let lower = KEY.to_lowercase();
    let upper = KEY.to_uppercase();
    assert_eq!(decode_secret_key(Some(&lower)), decode_secret_key(Some(&upper)));
    assert_eq!(decode_secret_key(Some(&upper)), Ok(key_bytes()));
    let a = load_keypair(Some(&lower)).unwrap();
    let b = load_keypair(Some(&upper)).unwrap();
    assert_eq!(a.public(), b.public());
}

#[test]
fn keypair_needs_thirty_two_bytes() {
    assert_eq!(SECRET_KEY_LEN, 32);
    assert!(keypair_from_secret(&vec![0u8; 31]).is_none());
    assert!(keypair_from_secret(&vec![0u8; 33]).is_none());
    assert!(keypair_from_secret(&Vec::new()).is_none());
    assert!(keypair_from_secret(&vec![0u8; 32]).is_some());
}

#[test]
fn port_falls_back_to_the_default() {
    assert_eq!(DEFAULT_P2P_PORT, 64001);
    assert_eq!(p2p_port(None), 64001);
    assert_eq!(p2p_port(Some("")), 64001);
    assert_eq!(p2p_port(Some("port")), 64001);
    assert_eq!(p2p_port(Some("65536")), 64001);
    assert_eq!(p2p_port(Some("-1")), 64001);
    assert_eq!(p2p_port(Some(" 4001")), 64001);
}

#[test]
fn configured_port_is_used() {
    assert_eq!(p2p_port(Some("4001")), 4001);
    assert_eq!(p2p_port(Some("0")), 0);
    assert_eq!(p2p_port(Some("65535")), 65535);
    assert_eq!(p2p_port(Some("+4001")), 4001);
    assert_eq!(p2p_port(Some("0004001")), 4001);
    assert_eq!(p2p_port(Some("00000065535")), 65535);
    assert_eq!(p2p_port(Some("+0")), 0);
}

#[test]
fn text_that_is_no_port_gives_the_default() {
    assert_eq!(p2p_port(Some("+")), 64001);
    assert_eq!(p2p_port(Some("-")), 64001);
    assert_eq!(p2p_port(Some("-0")), 64001);
    assert_eq!(p2p_port(Some("++1")), 64001);
    assert_eq!(p2p_port(Some("1+")), 64001);
    assert_eq!(p2p_port(Some("40 01")), 64001);
    assert_eq!(p2p_port(Some("4001 ")), 64001);
    assert_eq!(p2p_port(Some("4_001")), 64001);
    assert_eq!(p2p_port(Some("0x10")), 64001);
    assert_eq!(p2p_port(Some("12.0")), 64001);
    assert_eq!(p2p_port(Some("\u{664}\u{660}")), 64001);
    assert_eq!(p2p_port(Some("99999999999999999999")), 64001);
    assert_eq!(p2p_port(Some("000065536")), 64001);
}

#[test]
fn port_written_in_decimal_reads_back() {
    for port in [0u16, 1, 9, 10, 99, 100, 4001, 64001, 65534, 65535] {
        assert_eq!(p2p_port(Some(&decimal_text(port))), port);
    }
}

#[test]
fn settings_give_a_configuration() {
    let config = ServerConfig::from_settings(Some(KEY), Some("0.0.0.0:8080"), Some("4001"));
    assert_eq!(
        config,
        Ok(ServerConfig {
            secret_key: key_bytes(),
            http_endpoint: "0.0.0.0:8080".to_string(),
            p2p_port: 4001,
        })
    );
    let config = ServerConfig::from_settings(Some(KEY), Some("localhost:80"), None).unwrap();
    assert_eq!(config.p2p_port, 64001);
    let config = ServerConfig::from_settings(Some(KEY), Some("localhost:80"), Some("x")).unwrap();
    assert_eq!(config.p2p_port, 64001);
}

#[test]
fn faulty_settings_name_their_first_fault() {
    assert_eq!(
        ServerConfig::from_settings(None, None, None),
        Err(ConfigError::MissingKey)
    );
    assert_eq!(
        ServerConfig::from_settings(Some("zz"), None, Some("1")),
        Err(ConfigError::InvalidKeyHex)
    );
    assert_eq!(
        ServerConfig::from_settings(Some("00"), Some("a:1"), Some("1")),
        Err(ConfigError::InvalidKeyLength)
    );
    assert_eq!(
        ServerConfig::from_settings(Some(KEY), None, Some("1")),
        Err(ConfigError::MissingHttpEndpoint)
    );
}

#[test]
fn ports_are_written_in_decimal() {
    assert_eq!(decimal_text(0), "0");
    assert_eq!(decimal_text(7), "7");
    assert_eq!(decimal_text(10), "10");
    assert_eq!(decimal_text(4001), "4001");
    assert_eq!(decimal_text(64001), "64001");
    assert_eq!(decimal_text(65535), "65535");
}

#[test]
fn listen_texts_are_the_two_wildcards() {
    let (v4, v6) = listen_address_texts(64001);
    assert_eq!(v4, "/ip4/0.0.0.0/tcp/64001");
    assert_eq!(v6, "/ip6/::/tcp/64001");
    let (v4, v6) = listen_address_texts(0);
    assert_eq!(v4, "/ip4/0.0.0.0/tcp/0");
    assert_eq!(v6, "/ip6/::/tcp/0");
}

#[test]
fn listen_addresses_share_the_port() {
    let (v4, v6) = listen_addresses(4001).unwrap();
    assert_eq!(v4, Multiaddr::from_str("/ip4/0.0.0.0/tcp/4001").unwrap());
    assert_eq!(v6, Multiaddr::from_str("/ip6/::/tcp/4001").unwrap());
    let (v4, v6) = listen_addresses(DEFAULT_P2P_PORT).unwrap();
    assert_eq!(v4.to_string(), "/ip4/0.0.0.0/tcp/64001");
    assert_eq!(v6.to_string(), "/ip6/::/tcp/64001");
}
