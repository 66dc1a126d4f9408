//! The initiator: sends the handshake request, takes the reply, then
//! exchanges data frames with the peer that replied.
use vstd::prelude::*;
use vstd::arithmetic::power2::pow2;
use crate::Key;
use crate::fermat::is_prime;
use crate::frame::{
    decode, frame_of, key_le_bytes, le_value, lemma_key_round_trip, lemma_round_trip,
    request_payload, DHLayer, HAND_SHAKE_REPLY, HAND_SHAKE_REQUEST,
};
use crate::number_theory::{
    generate_key, get_primitive_root, has_no_root, is_found_root, lemma_power_mod_agrees,
    mod_power, power_mod,
    valid_modulus, MAX_MODULUS,
};
use crate::session::{open, opened, seal, sealed, DhError, PeerAddr};

verus! {

/// The initiator's session: its Diffie-Hellman parameters, the shared secret
/// (0 until the handshake completes) and the peer it is bound to.
#[derive(Clone, Copy, Debug, PartialEq, Eq, Structural)]
pub struct ClientSession {
    pub key: Key,
    /// The prime modulus.
    pub p: Key,
    /// The generator.
    pub g: Key,
    /// The private exponent; never sent.
    pub a: Key,
    pub established_connection: Option<PeerAddr>,
}

impl ClientSession {
    /// The modulus is usable and the secret is 0 until a peer is bound.
    pub open spec fn well_formed(&self) -> bool {
        &&& valid_modulus(self.p as int)
        &&& self.key < self.p
        &&& self.established_connection is None ==> self.key == 0
    }

    /// The public value `g ^ a mod p` that the request carries.
    pub open spec fn public_value(&self) -> Key {
        power_mod(self.g, self.a, self.p)
    }

    /// The bytes of this session's handshake request.
    pub open spec fn request_bytes(&self) -> Seq<u8> {
        frame_of(HAND_SHAKE_REQUEST, request_payload(self.p, self.g, self.public_value())).encoding()
    }

    /// The session after a datagram `b` arrived from `src` in answer to a
    /// request sent to `dst`, and the outcome.
    pub open spec fn after_reply(self, dst: PeerAddr, src: PeerAddr, b: Seq<u8>) -> (
        ClientSession,
        Result<(), DhError>,
    ) {
        match decode(b) {
            None => (self, Err(DhError::Protocol)),
            Some(f) => if src != dst {
                (self, Err(DhError::AddressMismatch))
            } else if self.established_connection is Some || f.content_type != HAND_SHAKE_REPLY
                || f.payload.len() < 16 {
                (self, Err(DhError::Protocol))
            } else {
                (
                    ClientSession {
                        key: power_mod(le_value(f.payload.subrange(0, 16)) as Key, self.a, self.p),
                        p: self.p,
                        g: self.g,
                        a: self.a,
                        established_connection: Some(dst),
                    },
                    Ok(()),
                )
            },
        }
    }

    /// A session over the given modulus, generator and private exponent, not
    /// yet bound to a peer.
    pub fn with_parameters(p: Key, g: Key, a: Key) -> (r: ClientSession)
        requires
            valid_modulus(p as int),
        ensures
            r == (ClientSession { key: 0, p, g, a, established_connection: None }),
            r.well_formed(),
    {
        ClientSession { key: 0, p, g, a, established_connection: None }
    }

    /// A session over the drawn modulus `p` and the drawn value `a`: the
    /// generator is what the descending search finds for `p`, and the private
    /// exponent is `a` brought into `[1, p)`. Fails with `Setup` when `p` is
    /// unusable or has no generator.
    pub fn from_draws(p: Key, a: Key) -> (r: Result<ClientSession, DhError>)
        ensures
            match r {
                Ok(s) => {
                    &&& valid_modulus(p as int)
                    &&& s == (ClientSession {
                        key: 0,
                        p,
                        g: s.g,
                        a: (a as int % (p - 1) + 1) as Key,
                        established_connection: None,
                    })
                    &&& is_found_root(p as int, s.g as int)
                    &&& 1 <= s.a < p
                    &&& s.well_formed()
                },
                Err(e) => e == DhError::Setup && (!valid_modulus(p as int) || has_no_root(p as int)),
            },
    {
        if p < 2 || p > MAX_MODULUS {
            return Err(DhError::Setup);
        }
        match get_primitive_root(p) {
            None => Err(DhError::Setup),
            Some(g) => Ok(ClientSession::with_parameters(p, g, a % (p - 1) + 1)),
        }
    }

    /// A fresh session: a random 64-bit prime modulus, the generator the
    /// descending search finds for it, and a random private exponent in
    /// `[1, p)`. Fails with `Setup` when the modulus is unusable or has no
    /// generator.
    pub fn new() -> (r: Result<ClientSession, DhError>)
        ensures
            match r {
                Ok(s) => {
                    &&& s.well_formed()
                    &&& s.key == 0
                    &&& s.established_connection is None
                    &&& s.p >= pow2(63)
                    &&& s.p < MAX_MODULUS ==> is_prime(s.p as int)
                    &&& is_found_root(s.p as int, s.g as int)
                    &&& 1 <= s.a < s.p
                },
                Err(e) => e == DhError::Setup,
            },
    {
        let p = generate_key(64);
        let a = generate_key(128);
        ClientSession::from_draws(p, a)
    }

    /// The bytes of the handshake request: `p`, `g` and the public value.
    pub fn handshake_request(&self) -> (r: Vec<u8>)
        requires
            self.well_formed(),
        ensures
            r@ == self.request_bytes(),
    {
        let upper_a = mod_power(self.g, self.a, self.p);
        DHLayer::new_handshake_request(self.p, self.g, upper_a).to_bytes()
    }

    /// Takes the datagram `datagram` that arrived from `src` after the request
    /// went to `dst`. On success the secret is `B ^ a mod p` for the reply's
    /// public value `B`, and the session is bound to `dst`; on failure it is
    /// left as it was.
    pub fn on_handshake_reply(&mut self, dst: PeerAddr, src: PeerAddr, datagram: &[u8]) -> (r: Result<(), DhError>)
        requires
            old(self).well_formed(),
        ensures
            (*final(self), r) == old(self).after_reply(dst, src, datagram@),
            final(self).well_formed(),
    {
        match DHLayer::from(datagram) {
            None => Err(DhError::Protocol),
            Some(f) => {
                if src != dst {
                    Err(DhError::AddressMismatch)
                } else if self.established_connection.is_some() {
                    Err(DhError::Protocol)
                } else {
                    match f.get_ub() {
                        None => Err(DhError::Protocol),
                        Some(upper_b) => {
                            self.key = mod_power(upper_b, self.a, self.p);
                            self.established_connection = Some(dst);
                            Ok(())
                        },
                    }
                }
            },
        }
    }

    /// The data frame to send for `data`, and where to: the keystream is
    /// applied under the shared secret. `NotEstablished` before the handshake.
    pub fn send_to(&self, data: &[u8]) -> (r: Result<(Vec<u8>, PeerAddr), DhError>)
        requires
            data@.len() <= u32::MAX,
        ensures
            match r {
                Ok((bytes, to)) => {
                    &&& self.established_connection == Some(to)
                    &&& bytes@ == sealed(data@, self.key)
                },
                Err(e) => self.established_connection is None && e == DhError::NotEstablished,
            },
    {
        match self.established_connection {
            None => Err(DhError::NotEstablished),
            Some(to) => Ok((seal(data, self.key), to)),
        }
    }

    /// The application bytes a received data frame carries, the keystream
    /// removed. `NotEstablished` before the handshake; `Protocol` for a
    /// datagram that is not a data frame.
    pub fn receive(&self, datagram: &[u8]) -> (r: Result<Vec<u8>, DhError>)
        ensures
            self.established_connection is None ==> r == Err::<Vec<u8>, DhError>(DhError::NotEstablished),
            self.established_connection is Some ==> match r {
                Ok(v) => opened(datagram@, self.key) == Ok::<Seq<u8>, DhError>(v@),
                Err(e) => opened(datagram@, self.key) == Err::<Seq<u8>, DhError>(e),
            },
    {
        if self.established_connection.is_none() {
            Err(DhError::NotEstablished)
        } else {
            open(datagram, self.key)
        }
    }
}

/// A datagram from an address other than the one the request went to never
/// completes the handshake and leaves the session, its secret included, as it
/// was; when it decodes as a frame the error is `AddressMismatch`.
pub proof fn lemma_reply_from_other_address(c: ClientSession, dst: PeerAddr, src: PeerAddr, b: Seq<u8>)
    requires
        src != dst,
    ensures
        c.after_reply(dst, src, b).0 == c,
        c.after_reply(dst, src, b).1 is Err,
        decode(b) is Some ==> c.after_reply(dst, src, b).1 == Err::<(), DhError>(DhError::AddressMismatch),
{
}

/// An unbound initiator that gets the reply `g ^ b mod p` from the address
/// it sent to binds to it with the secret `(g ^ a mod p) ^ b mod p`, the one a
/// responder with exponent `b` derives from the request.
pub proof fn lemma_client_derives_shared_key(c: ClientSession, dst: PeerAddr, b: Key)
    requires
        c.well_formed(),
        c.established_connection is None,
    ensures
        c.after_reply(dst, dst, frame_of(HAND_SHAKE_REPLY, key_le_bytes(power_mod(c.g, b, c.p))).encoding()) == (
            ClientSession {
                key: power_mod(c.public_value(), b, c.p),
                p: c.p,
                g: c.g,
                a: c.a,
                established_connection: Some(dst),
            },
            Ok::<(), DhError>(()),
        ),
{
    let ub = power_mod(c.g, b, c.p);
    let rep = frame_of(HAND_SHAKE_REPLY, key_le_bytes(ub));
    lemma_round_trip(rep);
    assert(rep.payload.subrange(0, 16) =~= key_le_bytes(ub));
    lemma_key_round_trip(ub);
    lemma_power_mod_agrees(c.p, c.g, c.a, b);
}

} // verus!
