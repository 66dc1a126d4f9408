//! What both peer roles share: addresses, errors and the data-frame path.
use vstd::prelude::*;
use crate::Key;
use crate::frame::{decode, frame_of, DHLayer, DATA_TRANSMISSION};
use crate::keystream::{decrypt, encrypt, transform};

verus! {

/// A transport address: an IPv6 address (IPv4 mapped into it) and a port.
#[derive(Clone, Copy, Debug, PartialEq, Eq, Structural)]
pub struct PeerAddr {
    pub ip: u128,
    pub port: u16,
}

/// Why a session operation failed.
#[derive(Clone, Copy, Debug, PartialEq, Eq, Structural)]
pub enum DhError {
    /// No generator was found for the generated modulus, or the modulus is
    /// unusable.
    Setup,
    /// The handshake reply came from an address other than the one the
    /// request went to.
    AddressMismatch,
    /// A malformed frame, or a frame of the wrong type for the session's state.
    Protocol,
    /// Data was to be sent before the handshake completed.
    NotEstablished,
    /// Data came from an address other than the established peer.
    UnexpectedPeer,
}

/// The bytes on the wire of a data frame carrying `data` under `key`.
pub open spec fn sealed(data: Seq<u8>, key: Key) -> Seq<u8> {
    frame_of(DATA_TRANSMISSION, transform(data, key)).encoding()
}

/// What a received datagram delivers under `key`: its payload with the
/// keystream removed, when it decodes to a data frame.
pub open spec fn opened(datagram: Seq<u8>, key: Key) -> Result<Seq<u8>, DhError> {
    match decode(datagram) {
        Some(f) => if f.content_type == DATA_TRANSMISSION {
            Ok(transform(f.payload, key))
        } else {
            Err(DhError::Protocol)
        },
        None => Err(DhError::Protocol),
    }
}

/// Applies the keystream to `data` and frames it as a data transmission.
pub fn seal(data: &[u8], key: Key) -> (r: Vec<u8>)
    requires
        data@.len() <= u32::MAX,
    ensures
        r@ == sealed(data@, key),
{
    let body = encrypt(data, key);
    let f = DHLayer::new_data_transmission(body.as_slice());
    f.to_bytes()
}

/// Decodes a data frame and removes the keystream from its payload.
pub fn open(datagram: &[u8], key: Key) -> (r: Result<Vec<u8>, DhError>)
    ensures
        match r {
            Ok(v) => opened(datagram@, key) == Ok::<Seq<u8>, DhError>(v@),
            Err(e) => opened(datagram@, key) == Err::<Seq<u8>, DhError>(e),
        },
{
    match DHLayer::from(datagram) {
        None => Err(DhError::Protocol),
        Some(f) => {
            if f.content_type != DATA_TRANSMISSION {
                Err(DhError::Protocol)
            } else {
                Ok(decrypt(f.payload.as_slice(), key))
            }
        },
    }
}

} // verus!
