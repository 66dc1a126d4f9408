//! The keystream transform applied to data-frame payloads.
//!
//! This is a placeholder cipher: each byte is xor'ed with a byte of the key's
//! 16-byte little-endian form, cycling. It gives no confidentiality and no
//! integrity; it only obfuscates.
use vstd::prelude::*;
use crate::Key;

verus! {

/// Byte `j mod 16` of the key's little-endian form.
pub open spec fn key_byte(key: Key, j: int) -> u8 {
    ((key >> ((8 * (j % 16)) as u128)) & 0xff) as u8
}

/// `data` xor'ed byte for byte with the cycled key bytes.
pub open spec fn transform(data: Seq<u8>, key: Key) -> Seq<u8> {
    Seq::new(data.len(), |i: int| data[i] ^ key_byte(key, i))
}

/// Removes the keystream from `data`.
pub fn decrypt(data: &[u8], key: Key) -> (r: Vec<u8>)
    ensures
        r@ == transform(data@, key),
{
    let mut v: Vec<u8> = Vec::with_capacity(data.len());
    let mut i: usize = 0;
    while i < data.len()
        invariant
            i <= data@.len(),
            v@.len() == i,
            forall|j: int| 0 <= j < i ==> #[trigger] v@[j] == data@[j] ^ key_byte(key, j),
        decreases data@.len() - i,
    {
        let shift: u128 = (8 * (i % 16)) as u128;
        let b: u8 = ((key >> shift) & 0xff) as u8;
        v.push(data[i] ^ b);
        i = i + 1;
    }
    assert(v@ =~= transform(data@, key));
    v
}

/// Applies the keystream to `data`; the same operation as [`decrypt`].
pub fn encrypt(data: &[u8], key: Key) -> (r: Vec<u8>)
    ensures
        r@ == transform(data@, key),
{
    decrypt(data, key)
}

/// The transform is its own inverse: applying it twice with one key gives the
/// data back.
pub proof fn lemma_transform_involution(d: Seq<u8>, k: Key)
    ensures
        transform(transform(d, k), k) == d,
{
    assert forall|i: int| 0 <= i < d.len() implies #[trigger] transform(transform(d, k), k)[i] == d[i] by {
        let x = d[i];
        let b = key_byte(k, i);
        assert((x ^ b) ^ b == x) by (bit_vector);
    }
    assert(transform(transform(d, k), k) =~= d);
}

} // verus!
