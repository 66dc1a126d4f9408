//! Diffie-Hellman key agreement and an obfuscated datagram protocol:
//! number theory, the keystream transform, the wire frame codec and the
//! two peer-role state machines.
use vstd::prelude::*;

pub mod client;
pub mod fermat;
pub mod frame;
pub mod keystream;
pub mod number_theory;
pub mod server;
pub mod session;

verus! {

/// A shared secret, a modulus, a generator or an exponent.
pub type Key = u128;

} // verus!
