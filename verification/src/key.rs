//! Peer identity: the 32-byte public key by which iroh names an endpoint.

use crate::hex::{hex_lower, hex_of};
use vstd::prelude::*;

verus! {

/// A peer's public key (its endpoint id), held as the 32 bytes of the key.
#[derive(Clone, Copy, Debug, PartialEq, Eq, Hash)]
pub struct PeerKey {
    bytes: [u8; 32],
}

impl View for PeerKey {
    type V = Seq<u8>;

    closed spec fn view(&self) -> Seq<u8> {
        self.bytes@
    }
}

/// The error iroh reports for text that names no endpoint.
#[verifier::external_type_specification]
#[verifier::external_body]
pub struct ExKeyParsingError(iroh::KeyParsingError);

/// The bytes of the endpoint id that `text` names, as iroh reads ids from
/// text (hex or base32 of a valid ed25519 point); none where it names none.
pub uninterp spec fn endpoint_id_bytes(text: Seq<char>) -> Option<Seq<u8>>;

/// `<iroh::EndpointId as FromStr>::from_str`: reads an endpoint id from
/// `text`. Claimed: the bytes of the id read are those that
/// `endpoint_id_bytes` names, and an error comes exactly where it names none.
#[verifier::external_body]
fn read_endpoint_id(text: &str) -> (r: Result<[u8; 32], iroh::KeyParsingError>)
    ensures
        match r {
            Ok(bytes) => endpoint_id_bytes(text@) == Some(bytes@),
            Err(_) => endpoint_id_bytes(text@) is None,
        },
{
    text.parse::<iroh::EndpointId>().map(|id| *id.as_bytes())
}

impl PeerKey {
    /// The key that `text` names (a ticket), where it names one.
    pub fn parse(text: &str) -> (r: Option<PeerKey>)
        ensures
            match r {
                Some(k) => endpoint_id_bytes(text@) == Some(k@),
                None => endpoint_id_bytes(text@) is None,
            },
    {
        match read_endpoint_id(text) {
            Ok(bytes) => Some(PeerKey { bytes }),
            Err(_) => None,
        }
    }

    /// The key as text (its ticket): the lower-case hex of its bytes, as
    /// iroh displays an endpoint id.
    pub fn to_text(&self) -> (r: String)
        ensures
            r@ == hex_of(self@),
    {
        hex_lower(&self.bytes)
    }

    /// The key whose bytes are `bytes`.
    pub fn from_bytes(bytes: [u8; 32]) -> (k: PeerKey)
        ensures
            k@ == bytes@,
    {
        PeerKey { bytes }
    }

    /// The 32 bytes of the key.
    pub fn to_bytes(&self) -> (b: [u8; 32])
        ensures
            b@ == self@,
    {
        self.bytes
    }

    /// Two keys are the same key exactly when their bytes agree.
    pub proof fn lemma_view_injective(a: PeerKey, b: PeerKey)
        ensures
            (a@ == b@) == (a == b),
    {
        if a@ == b@ {
            assert(a.bytes =~= b.bytes);
        }
    }

    /// Compares two keys byte by byte.
    pub fn same_as(&self, other: &PeerKey) -> (r: bool)
        ensures
            r == (*self == *other),
    {
        let mut i: usize = 0;
        while i < 32
            invariant
                i <= 32,
                forall|j: int| 0 <= j < i ==> self.bytes@[j] == other.bytes@[j],
            decreases 32 - i,
        {
            if self.bytes[i] != other.bytes[i] {
                return false;
            }
            i = i + 1;
        }
        proof {
            assert(self.bytes@ =~= other.bytes@);
            assert(self.bytes =~= other.bytes);
        }
        true
    }
}

} // verus!
