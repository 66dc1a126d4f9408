//! The responder: answers handshake requests and exchanges data frames with
//! the peer of the latest handshake.
use vstd::prelude::*;
use crate::Key;
use crate::frame::{
    decode, frame_of, key_le_bytes, le_value, DHLayer, DATA_TRANSMISSION, HAND_SHAKE_REPLY,
    HAND_SHAKE_REQUEST,
};
use crate::keystream::{decrypt, transform};
use crate::client::{lemma_client_derives_shared_key, ClientSession};
use crate::frame::{lemma_key_round_trip, lemma_round_trip, request_payload};
use crate::number_theory::{
    generate_key, lemma_power_mod_agrees, mod_power, power_mod, valid_modulus, MAX_MODULUS,
};
use vstd::arithmetic::power::pow;
use crate::session::{seal, sealed, DhError, PeerAddr};

verus! {

/// The responder's session: the shared secret of the latest handshake and the
/// peer it was made with. A new handshake replaces both together.
#[derive(Clone, Copy, Debug, PartialEq, Eq, Structural)]
pub struct ServerSession {
    pub key: Key,
    pub established_connection: Option<PeerAddr>,
}

/// What the responder does with an accepted datagram.
pub enum ServerAction {
    /// Send `bytes`, a handshake reply, to `to`.
    Reply { to: PeerAddr, bytes: Vec<u8> },
    /// Hand `data`, received from `from` and freed of the keystream, to the
    /// application.
    Deliver { from: PeerAddr, data: Vec<u8> },
}

/// A [`ServerAction`] with its bytes as sequences.
pub enum ActionModel {
    Reply { to: PeerAddr, bytes: Seq<u8> },
    Deliver { from: PeerAddr, data: Seq<u8> },
}

impl View for ServerAction {
    type V = ActionModel;

    open spec fn view(&self) -> ActionModel {
        match self {
            ServerAction::Reply { to, bytes } => ActionModel::Reply { to: *to, bytes: bytes@ },
            ServerAction::Deliver { from, data } => ActionModel::Deliver { from: *from, data: data@ },
        }
    }
}

/// The outcome of an operation, with any action as its model.
pub open spec fn outcome_view(r: Result<ServerAction, DhError>) -> Result<ActionModel, DhError> {
    match r {
        Ok(a) => Ok(a@),
        Err(e) => Err(e),
    }
}

/// The integer at `payload[off..off + 16]`, as a key.
pub open spec fn key_at(payload: Seq<u8>, off: int) -> Key {
    le_value(payload.subrange(off, off + 16)) as Key
}

impl ServerSession {
    /// A session with no peer and a zero secret.
    pub fn new() -> (r: ServerSession)
        ensures
            r == (ServerSession { key: 0, established_connection: None }),
    {
        ServerSession { key: 0, established_connection: None }
    }

    /// The session and the outcome after `b` arrived from `src`, with `exp`
    /// as the private exponent of a handshake it starts.
    ///
    /// A handshake request with a usable modulus binds the session to `src`
    /// with the secret `A ^ exp mod p` and answers `g ^ exp mod p`. A data
    /// frame from the bound peer is delivered with the keystream removed.
    /// Anything else fails and leaves the session as it was.
    pub open spec fn step(self, src: PeerAddr, b: Seq<u8>, exp: Key) -> (
        ServerSession,
        Result<ActionModel, DhError>,
    ) {
        match decode(b) {
            None => (self, Err(DhError::Protocol)),
            Some(f) => if f.content_type == HAND_SHAKE_REQUEST {
                let p = key_at(f.payload, 0);
                let g = key_at(f.payload, 16);
                let upper_a = key_at(f.payload, 32);
                if f.payload.len() < 48 || !valid_modulus(p as int) {
                    (self, Err(DhError::Protocol))
                } else {
                    (
                        ServerSession {
                            key: power_mod(upper_a, exp, p),
                            established_connection: Some(src),
                        },
                        Ok(
                            ActionModel::Reply {
                                to: src,
                                bytes: frame_of(HAND_SHAKE_REPLY, key_le_bytes(power_mod(g, exp, p))).encoding(),
                            },
                        ),
                    )
                }
            } else if f.content_type == DATA_TRANSMISSION {
                match self.established_connection {
                    None => (self, Err(DhError::Protocol)),
                    Some(peer) => if peer != src {
                        (self, Err(DhError::UnexpectedPeer))
                    } else {
                        (self, Ok(ActionModel::Deliver { from: src, data: transform(f.payload, self.key) }))
                    },
                }
            } else {
                (self, Err(DhError::Protocol))
            },
        }
    }

    /// Handles the datagram `datagram` from `src`; `exp` is the private
    /// exponent used if it is a handshake request.
    pub fn handle_datagram(&mut self, src: PeerAddr, datagram: &[u8], exp: Key) -> (r: Result<ServerAction, DhError>)
        ensures
            (*final(self), outcome_view(r)) == old(self).step(src, datagram@, exp),
    {
        match DHLayer::from(datagram) {
            None => Err(DhError::Protocol),
            Some(f) => {
                if f.content_type == HAND_SHAKE_REQUEST {
                    match f.get_pg_ua() {
                        None => Err(DhError::Protocol),
                        Some(pga) => {
                            let p = pga[0];
                            let g = pga[1];
                            let upper_a = pga[2];
                            if p < 2 || p > MAX_MODULUS {
                                Err(DhError::Protocol)
                            } else {
                                let upper_b = mod_power(g, exp, p);
                                let key = mod_power(upper_a, exp, p);
                                let bytes = DHLayer::new_handshake_reply(upper_b).to_bytes();
                                self.key = key;
                                self.established_connection = Some(src);
                                Ok(ServerAction::Reply { to: src, bytes })
                            }
                        },
                    }
                } else if f.content_type == DATA_TRANSMISSION {
                    match self.established_connection {
                        None => Err(DhError::Protocol),
                        Some(peer) => {
                            if peer != src {
                                Err(DhError::UnexpectedPeer)
                            } else {
                                let data = decrypt(f.payload.as_slice(), self.key);
                                Ok(ServerAction::Deliver { from: src, data })
                            }
                        },
                    }
                } else {
                    Err(DhError::Protocol)
                }
            },
        }
    }

    /// Handles the datagram `datagram` from `src`, drawing a fresh random
    /// private exponent for a handshake request. The outcome is that of
    /// [`ServerSession::step`] for some exponent.
    pub fn recv_pkt(&mut self, src: PeerAddr, datagram: &[u8]) -> (r: Result<ServerAction, DhError>)
        ensures
            exists|exp: Key| (*final(self), outcome_view(r)) == #[trigger] old(self).step(src, datagram@, exp),
    {
        let exp: Key = if datagram.len() > 2 && datagram[2] == HAND_SHAKE_REQUEST {
            generate_key(64)
        } else {
            0
        };
        let r = self.handle_datagram(src, datagram, exp);
        assert((*self, outcome_view(r)) == old(self).step(src, datagram@, exp));
        r
    }

    /// The data frame to send for `data`, and where to: the keystream is
    /// applied under the shared secret. `NotEstablished` before a handshake.
    pub fn send_to(&self, data: &[u8]) -> (r: Result<(Vec<u8>, PeerAddr), DhError>)
        requires
            data@.len() <= u32::MAX,
        ensures
            match r {
                Ok((bytes, to)) => {
                    &&& self.established_connection == Some(to)
                    &&& bytes@ == sealed(data@, self.key)
                },
                Err(e) => self.established_connection is None && e == DhError::NotEstablished,
            },
    {
        match self.established_connection {
            None => Err(DhError::NotEstablished),
            Some(to) => Ok((seal(data, self.key), to)),
        }
    }
}

/// A responder that takes an initiator's handshake request, and the initiator
/// that takes the reply, derive the same secret `g ^ (a * exp) mod p`; the
/// responder is then bound to the initiator.
pub proof fn lemma_handshake_agreement(c: ClientSession, s: ServerSession, peer: PeerAddr, exp: Key)
    requires
        c.well_formed(),
        c.established_connection is None,
    ensures
        ({
            let (s2, out) = s.step(peer, c.request_bytes(), exp);
            let reply = frame_of(HAND_SHAKE_REPLY, key_le_bytes(power_mod(c.g, exp, c.p))).encoding();
            let (c2, r) = c.after_reply(peer, peer, reply);
            &&& out == Ok::<ActionModel, DhError>(ActionModel::Reply { to: peer, bytes: reply })
            &&& r == Ok::<(), DhError>(())
            &&& s2.established_connection == Some(peer)
            &&& c2.established_connection == Some(peer)
            &&& c2.key == s2.key
            &&& c2.key as int == pow(c.g as int, (c.a * exp) as nat) % (c.p as int)
        }),
{
    let p = c.p;
    let g = c.g;
    let ua = c.public_value();
    let ub = power_mod(g, exp, p);
    lemma_request_rebinds(s, peer, p, g, ua, exp);
    lemma_client_derives_shared_key(c, peer, exp);
    lemma_power_mod_agrees(p, g, c.a, exp);
}

/// A handshake request with a usable modulus binds the responder to its
/// sender, whatever peer it was bound to before, with the secret
/// `A ^ exp mod p`, and answers with `g ^ exp mod p`.
pub proof fn lemma_request_rebinds(s: ServerSession, peer: PeerAddr, p: Key, g: Key, ua: Key, exp: Key)
    requires
        valid_modulus(p as int),
    ensures
        s.step(peer, frame_of(HAND_SHAKE_REQUEST, request_payload(p, g, ua)).encoding(), exp) == (
            ServerSession { key: power_mod(ua, exp, p), established_connection: Some(peer) },
            Ok::<ActionModel, DhError>(
                ActionModel::Reply {
                    to: peer,
                    bytes: frame_of(HAND_SHAKE_REPLY, key_le_bytes(power_mod(g, exp, p))).encoding(),
                },
            ),
        ),
{
    let payload = request_payload(p, g, ua);
    let req = frame_of(HAND_SHAKE_REQUEST, payload);
    lemma_request_payload_keys(p, g, ua);
    lemma_round_trip(req);
    assert(decode(req.encoding()) == Some(req));
    assert(req.content_type == HAND_SHAKE_REQUEST);
}

proof fn lemma_request_payload_keys(p: Key, g: Key, ua: Key)
    ensures
        request_payload(p, g, ua).len() == 48,
        key_at(request_payload(p, g, ua), 0) == p,
        key_at(request_payload(p, g, ua), 16) == g,
        key_at(request_payload(p, g, ua), 32) == ua,
{
    let payload = request_payload(p, g, ua);
    assert(payload.subrange(0, 16) =~= key_le_bytes(p));
    assert(payload.subrange(16, 32) =~= key_le_bytes(g));
    assert(payload.subrange(32, 48) =~= key_le_bytes(ua));
    lemma_key_round_trip(p);
    lemma_key_round_trip(g);
    lemma_key_round_trip(ua);
    assert(key_at(payload, 0) == p);
    assert(key_at(payload, 16) == g);
    assert(key_at(payload, 32) == ua);
}

/// After a second handshake from another peer, a data frame from the first,
/// now stale, peer is refused with `UnexpectedPeer` and changes nothing.
pub proof fn lemma_stale_peer_rejected(
    s: ServerSession,
    first: PeerAddr,
    second: PeerAddr,
    p: Key,
    g: Key,
    ua: Key,
    exp: Key,
    data: Seq<u8>,
    exp2: Key,
)
    requires
        valid_modulus(p as int),
        first != second,
        data.len() <= u32::MAX,
    ensures
        ({
            let s2 = s.step(second, frame_of(HAND_SHAKE_REQUEST, request_payload(p, g, ua)).encoding(), exp).0;
            &&& s2.established_connection == Some(second)
            &&& s2.step(first, frame_of(DATA_TRANSMISSION, data).encoding(), exp2) == (
                s2,
                Err::<ActionModel, DhError>(DhError::UnexpectedPeer),
            )
        }),
{
    lemma_request_rebinds(s, second, p, g, ua, exp);
    lemma_round_trip(frame_of(DATA_TRANSMISSION, data));
}

} // verus!
