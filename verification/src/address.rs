//! Multiaddresses as the registry sees them: a string of bytes, with the
//! component that names a peer at its end.
use libp2p::multiaddr::Protocol;
use libp2p::{Multiaddr, PeerId};
use std::str::FromStr;
use vstd::prelude::*;

verus! {

/// `libp2p::Multiaddr`: a sequence of address components, kept in binary form.
#[verifier::external_type_specification]
#[verifier::external_body]
pub struct ExMultiaddr(Multiaddr);

/// The bytes that a multiaddress holds: what `Multiaddr::to_vec` returns.
pub uninterp spec fn multiaddr_bytes(address: Multiaddr) -> Seq<u8>;

/// The binary form of the component `/p2p/<identity>`, as
/// `Multiaddr::with(Protocol::P2p(..))` appends it; `None` where `identity`
/// is not the text of a peer id (`PeerId::from_str` fails on it).
pub uninterp spec fn p2p_component(identity: Seq<char>) -> Option<Seq<u8>>;

/// The text that `Multiaddr::to_string` gives for the multiaddress with
/// these bytes.
pub uninterp spec fn multiaddr_text(bytes: Seq<u8>) -> Seq<char>;

/// The bytes of the multiaddress that `Multiaddr::from_str` reads from a
/// text; `None` where it rejects the text.
pub uninterp spec fn multiaddr_parsed(text: Seq<char>) -> Option<Seq<u8>>;

/// `suffix` stands at the end of `bytes`.
pub open spec fn has_suffix(bytes: Seq<u8>, suffix: Seq<u8>) -> bool {
    suffix.len() <= bytes.len() && bytes.subrange(bytes.len() - suffix.len(), bytes.len() as int)
        == suffix
}

/// `Multiaddr::empty`: the multiaddress without components holds no bytes.
pub assume_specification[ Multiaddr::empty ]() -> (address: Multiaddr)
    ensures
        multiaddr_bytes(address) == Seq::<u8>::empty(),
;

/// `Multiaddr::ends_with` compares the last bytes of the first address with
/// all bytes of the second.
pub assume_specification[ Multiaddr::ends_with ](address: &Multiaddr, other: &Multiaddr) -> (found:
    bool)
    ensures
        found == has_suffix(multiaddr_bytes(*address), multiaddr_bytes(*other)),
;

/// `Multiaddr::clone` keeps the bytes.
pub assume_specification[ <Multiaddr as Clone>::clone ](address: &Multiaddr) -> (copy: Multiaddr)
    ensures
        multiaddr_bytes(copy) == multiaddr_bytes(*address),
;

/// `Multiaddr::with`, given `Protocol::P2p` of the peer that
/// `PeerId::from_str` reads from `identity`: the component's bytes are
/// written behind those of `address`. `None` where `identity` is no peer id.
#[verifier::external_body]
fn multiaddr_with_p2p(address: Multiaddr, identity: &str) -> (extended: Option<Multiaddr>)
    ensures
        match extended {
            Some(a) => p2p_component(identity@).is_some() && multiaddr_bytes(a) == multiaddr_bytes(
                address,
            ) + p2p_component(identity@).unwrap(),
            None => p2p_component(identity@).is_none(),
        },
{
    match PeerId::from_str(identity) {
        Ok(peer) => Some(address.with(Protocol::P2p(peer))),
        Err(_) => None,
    }
}

/// `Multiaddr::to_string`: the text depends on the bytes alone.
#[verifier::external_body]
pub(crate) fn multiaddr_to_string(address: &Multiaddr) -> (text: String)
    ensures
        text@ == multiaddr_text(multiaddr_bytes(*address)),
{
    address.to_string()
}

/// `Multiaddr::from_str`.
#[verifier::external_body]
pub(crate) fn multiaddr_from_str(text: &str) -> (address: Option<Multiaddr>)
    ensures
        match address {
            Some(a) => multiaddr_parsed(text@) == Some(multiaddr_bytes(a)),
            None => multiaddr_parsed(text@).is_none(),
        },
{
    match Multiaddr::from_str(text) {
        Ok(a) => Some(a),
        Err(_) => None,
    }
}

/// The bytes of an address once it names its peer: unchanged where `suffix`
/// already stands at their end, else with `suffix` behind them.
pub open spec fn normalized(bytes: Seq<u8>, suffix: Seq<u8>) -> Seq<u8> {
    if has_suffix(bytes, suffix) {
        bytes
    } else {
        bytes + suffix
    }
}

/// The multiaddress `/p2p/<identity>`, or `None` where `identity` is not the
/// text of a peer id.
pub fn peer_suffix(identity: &str) -> (suffix: Option<Multiaddr>)
    ensures
        match suffix {
            Some(s) => p2p_component(identity@) == Some(multiaddr_bytes(s)),
            None => p2p_component(identity@).is_none(),
        },
{
    let suffix = multiaddr_with_p2p(Multiaddr::empty(), identity);
    proof {
        if suffix.is_some() {
            assert(multiaddr_bytes(suffix.unwrap()) =~= p2p_component(identity@).unwrap());
        }
    }
    suffix
}

/// Gives `address` the component that names its peer, unless that component
/// already stands at its end. `None` where `identity` is not the text of a
/// peer id.
pub fn normalize_address(address: &Multiaddr, identity: &str) -> (result: Option<Multiaddr>)
    ensures
        match result {
            Some(a) => p2p_component(identity@).is_some() && multiaddr_bytes(a) == normalized(
                multiaddr_bytes(*address),
                p2p_component(identity@).unwrap(),
            ),
            None => p2p_component(identity@).is_none(),
        },
{
    match peer_suffix(identity) {
        None => None,
        Some(suffix) => {
            if !address.ends_with(&suffix) {
                multiaddr_with_p2p(address.clone(), identity)
            } else {
                Some(address.clone())
            }
        },
    }
}

/// An address that ends with the suffix is left as it is.
pub proof fn lemma_normalized_keeps_suffixed(bytes: Seq<u8>, suffix: Seq<u8>)
    requires
        has_suffix(bytes, suffix),
    ensures
        normalized(bytes, suffix) == bytes,
{
}

/// A normalized address ends with the suffix.
pub proof fn lemma_normalized_ends_with(bytes: Seq<u8>, suffix: Seq<u8>)
    ensures
        has_suffix(normalized(bytes, suffix), suffix),
{
    if !has_suffix(bytes, suffix) {
        let joined = bytes + suffix;
        assert(joined.subrange(joined.len() - suffix.len(), joined.len() as int) =~= suffix);
    }
}

/// The two forms of an address, without the suffix and with it, are
/// normalized to the same bytes: the form with the suffix.
pub proof fn lemma_normalized_joins_forms(bytes: Seq<u8>, suffix: Seq<u8>)
    requires
        !has_suffix(bytes, suffix),
    ensures
        normalized(bytes, suffix) == bytes + suffix,
        normalized(bytes + suffix, suffix) == bytes + suffix,
{
    lemma_normalized_ends_with(bytes, suffix);
}

/// Normalizing twice gives what normalizing once gives.
pub proof fn lemma_normalized_idempotent(bytes: Seq<u8>, suffix: Seq<u8>)
    ensures
        normalized(normalized(bytes, suffix), suffix) == normalized(bytes, suffix),
{
    lemma_normalized_ends_with(bytes, suffix);
}

} // verus!
