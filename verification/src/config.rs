//! The settings that the server starts with: its secret key, the address
//! of the query service, and the port on which peers are served.
use crate::address::{multiaddr_bytes, multiaddr_from_str, multiaddr_parsed};
use hex::FromHexError;
use libp2p::identity::{DecodingError, Keypair};
use libp2p::Multiaddr;
use vstd::prelude::*;
use vstd::string::StringExecFns;

verus! {

/// `hex::FromHexError`: why a text is no hex string.
#[verifier::external_type_specification]
#[verifier::external_body]
pub struct ExFromHexError(FromHexError);

/// `libp2p::identity::Keypair`: the key pair that gives the server its identity.
#[verifier::external_type_specification]
#[verifier::external_body]
pub struct ExKeypair(Keypair);

/// `libp2p::identity::DecodingError`: why bytes are no key.
#[verifier::external_type_specification]
#[verifier::external_body]
pub struct ExDecodingError(DecodingError);

/// The port on which peers are served where none is configured.
pub const DEFAULT_P2P_PORT: u16 = 64001;

/// The length of a secret key in bytes.
pub const SECRET_KEY_LEN: usize = 32;

/// Why the settings give no configuration.
#[derive(Debug, Clone, Copy, PartialEq, Eq)]
pub enum ConfigError {
    /// No secret key is set.
    MissingKey,
    /// The secret key is no hex string.
    InvalidKeyHex,
    /// The secret key is not 32 bytes long.
    InvalidKeyLength,
    /// No address is set for the query service.
    MissingHttpEndpoint,
}

/// What the server starts with.
#[derive(Debug, PartialEq, Eq)]
pub struct ServerConfig {
    /// The secret key, 32 bytes.
    pub secret_key: Vec<u8>,
    /// The address on which the query service listens, as `host:port`.
    pub http_endpoint: String,
    /// The port on which peers are served.
    pub p2p_port: u16,
}

/// The value of a hex digit, in either case.
pub open spec fn hex_digit_value(c: char) -> Option<u8> {
    let code = c as int;
    if 0x30 <= code <= 0x39 {
        Some((code - 0x30) as u8)
    } else if 0x41 <= code <= 0x46 {
        Some((code - 0x41 + 10) as u8)
    } else if 0x61 <= code <= 0x66 {
        Some((code - 0x61 + 10) as u8)
    } else {
        None
    }
}

/// Every character of the text is a hex digit.
pub open spec fn all_hex_digits(text: Seq<char>) -> bool {
    forall|i: int| 0 <= i < text.len() ==> hex_digit_value(#[trigger] text[i]).is_some()
}

/// The bytes that a hex string stands for, two digits to a byte, the high
/// one first; `None` for a text of odd length or with another character.
pub open spec fn hex_decoding(text: Seq<char>) -> Option<Seq<u8>> {
    if text.len() % 2 == 0 && all_hex_digits(text) {
        Some(
            Seq::new(
                text.len() / 2,
                |i: int|
                    (hex_digit_value(text[2 * i]).unwrap() * 16 + hex_digit_value(
                        text[2 * i + 1],
                    ).unwrap()) as u8,
            ),
        )
    } else {
        None
    }
}

/// A hex digit with the letters `a` to `f` in upper case; any other
/// character as it is.
pub open spec fn upper_case(c: char) -> char {
    if 0x61 <= c as int <= 0x66 {
        ((c as int) - 0x20) as char
    } else {
        c
    }
}

/// A text with its hex digits in upper case.
pub open spec fn upper_cased(text: Seq<char>) -> Seq<char> {
    Seq::new(text.len(), |i: int| upper_case(text[i]))
}

/// Every character of the text is a decimal digit.
pub open spec fn all_decimal_digits(text: Seq<char>) -> bool {
    forall|i: int| 0 <= i < text.len() ==> 0x30 <= (#[trigger] text[i]) as int <= 0x39
}

/// The number that a string of decimal digits stands for.
pub open spec fn decimal_value(digits: Seq<char>) -> nat
    decreases digits.len(),
{
    if digits.len() == 0 {
        0
    } else {
        decimal_value(digits.drop_last()) * 10 + (digits.last() as int - 0x30) as nat
    }
}

/// The port that a text stands for: one or more decimal digits, with or
/// without a `+` before them, that give a number of at most 65535. `None`
/// for every other text.
pub open spec fn decimal_port(text: Seq<char>) -> Option<u16> {
    let digits = if text.len() > 0 && text[0] == '+' {
        text.drop_first()
    } else {
        text
    };
    if digits.len() > 0 && all_decimal_digits(digits) && decimal_value(digits) <= 0xffff {
        Some(decimal_value(digits) as u16)
    } else {
        None
    }
}

/// The secret of a key pair: the 32 bytes from which
/// `Keypair::ed25519_from_bytes` made it.
pub uninterp spec fn keypair_secret(keypair: Keypair) -> Seq<u8>;

/// `hex::decode`: two hex digits of either case give one byte; a text of
/// odd length or with any other character is an error.
#[verifier::external_body]
fn hex_decode(text: &str) -> (decoded: Result<Vec<u8>, FromHexError>)
    ensures
        match decoded {
            Ok(bytes) => hex_decoding(text@) == Some(bytes@),
            Err(_) => hex_decoding(text@).is_none(),
        },
{
    hex::decode(text)
}

/// `Keypair::ed25519_from_bytes`: any 32 bytes are a secret key, and the
/// key pair is made from a copy of them; bytes of another length are none.
#[verifier::external_body]
fn ed25519_keypair(secret: Vec<u8>) -> (keypair: Result<Keypair, DecodingError>)
    ensures
        match keypair {
            Ok(k) => secret@.len() == SECRET_KEY_LEN && keypair_secret(k) == secret@,
            Err(_) => secret@.len() != SECRET_KEY_LEN,
        },
{
    Keypair::ed25519_from_bytes(secret)
}

/// `str::parse::<u16>`: the text is read as decimal digits, with or without
/// a `+` before them; an empty text, a sign alone, any other character and
/// a number above 65535 are errors.
#[verifier::external_body]
fn parse_u16(text: &str) -> (port: Option<u16>)
    ensures
        port == decimal_port(text@),
{
    match text.parse::<u16>() {
        Ok(port) => Some(port),
        Err(_) => None,
    }
}

/// What stands in the way of a secret key, if anything.
pub open spec fn key_error(key_hex: Option<&str>) -> Option<ConfigError> {
    match key_hex {
        None => Some(ConfigError::MissingKey),
        Some(text) => match hex_decoding(text@) {
            None => Some(ConfigError::InvalidKeyHex),
            Some(bytes) => if bytes.len() == SECRET_KEY_LEN {
                None
            } else {
                Some(ConfigError::InvalidKeyLength)
            },
        },
    }
}

/// The first fault of the settings, if there is one: the key is looked at
/// before the address of the query service.
pub open spec fn config_error(key_hex: Option<&str>, http_endpoint: Option<&str>) -> Option<
    ConfigError,
> {
    if key_error(key_hex).is_some() {
        key_error(key_hex)
    } else if http_endpoint.is_none() {
        Some(ConfigError::MissingHttpEndpoint)
    } else {
        None
    }
}

/// The port that the settings give: the configured one where it reads as a
/// port, else the default one.
pub open spec fn port_setting(p2p_port: Option<&str>) -> u16 {
    match p2p_port {
        Some(text) => match decimal_port(text@) {
            Some(port) => port,
            None => DEFAULT_P2P_PORT,
        },
        None => DEFAULT_P2P_PORT,
    }
}

/// The secret key that a hex string of 64 digits stands for.
pub fn decode_secret_key(key_hex: Option<&str>) -> (secret: Result<Vec<u8>, ConfigError>)
    ensures
        match secret {
            Ok(bytes) => key_error(key_hex).is_none() && Some(bytes@) == hex_decoding(
                key_hex.unwrap()@,
            ) && bytes@.len() == SECRET_KEY_LEN,
            Err(e) => key_error(key_hex) == Some(e),
        },
{
    match key_hex {
        None => Err(ConfigError::MissingKey),
        Some(text) => match hex_decode(text) {
            Err(_) => Err(ConfigError::InvalidKeyHex),
            Ok(bytes) => {
                if bytes.len() == SECRET_KEY_LEN {
                    Ok(bytes)
                } else {
                    Err(ConfigError::InvalidKeyLength)
                }
            },
        },
    }
}

/// The key pair of a secret key; `None` where the bytes are not 32.
pub fn keypair_from_secret(secret: &Vec<u8>) -> (keypair: Option<Keypair>)
    ensures
        match keypair {
            Some(k) => secret@.len() == SECRET_KEY_LEN && keypair_secret(k) == secret@,
            None => secret@.len() != SECRET_KEY_LEN,
        },
{
    match ed25519_keypair(secret.clone()) {
        Ok(keypair) => Some(keypair),
        Err(_) => None,
    }
}

/// The server's key pair, from the hex string of its secret key: the key
/// pair whose secret is the 32 bytes that the string stands for.
pub fn load_keypair(key_hex: Option<&str>) -> (keypair: Result<Keypair, ConfigError>)
    ensures
        match keypair {
            Ok(k) => key_error(key_hex).is_none() && Some(keypair_secret(k)) == hex_decoding(
                key_hex.unwrap()@,
            ),
            Err(e) => key_error(key_hex) == Some(e),
        },
{
    match decode_secret_key(key_hex) {
        Err(e) => Err(e),
        Ok(secret) => match ed25519_keypair(secret) {
            Ok(keypair) => Ok(keypair),
            Err(_) => Err(ConfigError::InvalidKeyLength),
        },
    }
}

/// The port on which peers are served: the configured one where there is
/// one and it reads as a port, else the default one.
pub fn p2p_port(configured: Option<&str>) -> (port: u16)
    ensures
        port == port_setting(configured),
{
    match configured {
        Some(text) => match parse_u16(text) {
            Some(port) => port,
            None => DEFAULT_P2P_PORT,
        },
        None => DEFAULT_P2P_PORT,
    }
}

impl ServerConfig {
    /// Reads the configuration from the three settings, each as it was
    /// found or not found. A missing or malformed key and a missing address
    /// of the query service are errors; the port falls back to its default.
    pub fn from_settings(
        key_hex: Option<&str>,
        http_endpoint: Option<&str>,
        p2p_port: Option<&str>,
    ) -> (config: Result<ServerConfig, ConfigError>)
        ensures
            match config {
                Ok(c) => config_error(key_hex, http_endpoint).is_none() && Some(c.secret_key@)
                    == hex_decoding(key_hex.unwrap()@) && c.http_endpoint@
                    == http_endpoint.unwrap()@ && c.p2p_port == port_setting(p2p_port),
                Err(e) => config_error(key_hex, http_endpoint) == Some(e),
            },
    {
        let secret_key = match decode_secret_key(key_hex) {
            Ok(bytes) => bytes,
            Err(e) => {
                return Err(e);
            },
        };
        let port = self::p2p_port(p2p_port);
        match http_endpoint {
            None => Err(ConfigError::MissingHttpEndpoint),
            Some(endpoint) => Ok(
                ServerConfig { secret_key, http_endpoint: endpoint.to_owned(), p2p_port: port },
            ),
        }
    }
}

/// The character of a decimal digit.
pub open spec fn digit_char(digit: nat) -> char {
    if digit == 0 {
        '0'
    } else if digit == 1 {
        '1'
    } else if digit == 2 {
        '2'
    } else if digit == 3 {
        '3'
    } else if digit == 4 {
        '4'
    } else if digit == 5 {
        '5'
    } else if digit == 6 {
        '6'
    } else if digit == 7 {
        '7'
    } else if digit == 8 {
        '8'
    } else {
        '9'
    }
}

/// A number in decimal, without leading zeros.
pub open spec fn decimal(n: nat) -> Seq<char>
    decreases n,
{
    if n < 10 {
        seq![digit_char(n)]
    } else {
        decimal(n / 10).push(digit_char(n % 10))
    }
}

/// The text of the wildcard address of IPv4 with a TCP port.
pub open spec fn ipv4_listen_text(port: u16) -> Seq<char> {
    "/ip4/0.0.0.0/tcp/"@ + decimal(port as nat)
}

/// The text of the wildcard address of IPv6 with a TCP port.
pub open spec fn ipv6_listen_text(port: u16) -> Seq<char> {
    "/ip6/::/tcp/"@ + decimal(port as nat)
}

/// One decimal digit as text.
fn digit_text(digit: u16) -> (text: &'static str)
    requires
        digit < 10,
    ensures
        text@ == seq![digit_char(digit as nat)],
{
    proof {
        reveal_strlit("0");
        reveal_strlit("1");
        reveal_strlit("2");
        reveal_strlit("3");
        reveal_strlit("4");
        reveal_strlit("5");
        reveal_strlit("6");
        reveal_strlit("7");
        reveal_strlit("8");
        reveal_strlit("9");
    }
    let text = if digit == 0 {
        "0"
    } else if digit == 1 {
        "1"
    } else if digit == 2 {
        "2"
    } else if digit == 3 {
        "3"
    } else if digit == 4 {
        "4"
    } else if digit == 5 {
        "5"
    } else if digit == 6 {
        "6"
    } else if digit == 7 {
        "7"
    } else if digit == 8 {
        "8"
    } else {
        "9"
    };
    assert(text@ =~= seq![digit_char(digit as nat)]);
    text
}

/// A port in decimal.
pub fn decimal_text(port: u16) -> (text: String)
    ensures
        text@ == decimal(port as nat),
    decreases port,
{
    if port < 10 {
        String::from_str(digit_text(port))
    } else {
        let mut text = decimal_text(port / 10);
        text.append(digit_text(port % 10));
        assert(text@ =~= decimal(port as nat));
        text
    }
}

/// The texts of the two addresses on which peers are served: the wildcard
/// address of IPv4 and that of IPv6, with the same port.
pub fn listen_address_texts(port: u16) -> (texts: (String, String))
    ensures
        texts.0@ == ipv4_listen_text(port),
        texts.1@ == ipv6_listen_text(port),
{
    let digits = decimal_text(port);
    let v4 = String::from_str("/ip4/0.0.0.0/tcp/").concat(digits.as_str());
    let v6 = String::from_str("/ip6/::/tcp/").concat(digits.as_str());
    (v4, v6)
}

/// The two addresses on which peers are served, each read from its text;
/// `None` where one of the texts reads as no multiaddress.
pub fn listen_addresses(port: u16) -> (addresses: Option<(Multiaddr, Multiaddr)>)
    ensures
        match addresses {
            Some((v4, v6)) => multiaddr_parsed(ipv4_listen_text(port)) == Some(multiaddr_bytes(v4))
                && multiaddr_parsed(ipv6_listen_text(port)) == Some(multiaddr_bytes(v6)),
            None => multiaddr_parsed(ipv4_listen_text(port)).is_none() || multiaddr_parsed(
                ipv6_listen_text(port),
            ).is_none(),
        },
{
    let texts = listen_address_texts(port);
    match multiaddr_from_str(texts.0.as_str()) {
        None => None,
        Some(v4) => match multiaddr_from_str(texts.1.as_str()) {
            None => None,
            Some(v6) => Some((v4, v6)),
        },
    }
}

/// The case of the letters in a hex string does not matter: the string in
/// upper case stands for the same bytes, or for none as well.
pub proof fn lemma_hex_decoding_ignores_case(text: Seq<char>)
    ensures
        hex_decoding(upper_cased(text)) == hex_decoding(text),
{
    let upper = upper_cased(text);
    assert forall|i: int| 0 <= i < text.len() implies hex_digit_value(upper[i])
        == hex_digit_value(text[i]) by {
        let c = text[i];
        if 0x61 <= c as int <= 0x66 {
            assert(upper_case(c) as int == c as int - 0x20);
        }
    }
    if all_hex_digits(text) {
        assert forall|i: int| 0 <= i < upper.len() implies hex_digit_value(
            #[trigger] upper[i],
        ).is_some() by {
            assert(hex_digit_value(text[i]).is_some());
        }
    }
    if all_hex_digits(upper) {
        assert forall|i: int| 0 <= i < text.len() implies hex_digit_value(
            #[trigger] text[i],
        ).is_some() by {
            assert(hex_digit_value(upper[i]).is_some());
        }
    }
    if text.len() % 2 == 0 && all_hex_digits(text) {
        assert(hex_decoding(upper).unwrap() =~= hex_decoding(text).unwrap());
    }
}

/// A port written in decimal reads back as itself.
pub proof fn lemma_decimal_reads_back(port: u16)
    ensures
        decimal_port(decimal(port as nat)) == Some(port),
{
    lemma_decimal_digits(port as nat);
}

/// A number in decimal is one or more digits, none of them a sign, and
/// they stand for the number.
pub proof fn lemma_decimal_digits(n: nat)
    ensures
        decimal(n).len() > 0,
        all_decimal_digits(decimal(n)),
        decimal_value(decimal(n)) == n,
        decimal(n)[0] != '+',
    decreases n,
{
    if n < 10 {
        let digits = decimal(n);
        assert(digits.len() == 1);
        assert(digits.drop_last() =~= Seq::<char>::empty());
        assert(decimal_value(digits.drop_last()) == 0);
        assert(digits.last() == digit_char(n));
        assert(digit_char(n) as int == 0x30 + n);
    } else {
        let front = decimal(n / 10);
        let digits = front.push(digit_char(n % 10));
        lemma_decimal_digits(n / 10);
        assert(digits.drop_last() =~= front);
        assert(digits.last() == digit_char(n % 10));
        assert(digit_char(n % 10) as int == 0x30 + n % 10);
        assert(digits[0] == front[0]);
        assert forall|i: int| 0 <= i < digits.len() implies 0x30 <= (#[trigger] digits[i]) as int
            <= 0x39 by {
            if i < front.len() {
                assert(digits[i] == front[i]);
            }
        }
    }
}

} // verus!
