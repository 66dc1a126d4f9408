//! Prime generation, primitive-root search and modular exponentiation.
use vstd::prelude::*;
use vstd::arithmetic::power::*;
use vstd::arithmetic::div_mod::*;
use num_prime::RandPrime;
use vstd::arithmetic::power2::pow2;
use crate::Key;
use crate::fermat::is_prime;

verus! {

/// The largest modulus for which the products of two residues fit in a `Key`.
pub const MAX_MODULUS: u128 = 0x1_0000_0000_0000_0000;

/// The exponent `(p - 1) / 2` used by the generator test.
pub open spec fn half_order(p: int) -> nat {
    ((p - 1) / 2) as nat
}

/// `i ^ ((p - 1) / 2) mod p == 1`: `i` fails the generator test for `p`.
pub open spec fn half_power_is_one(p: int, i: int) -> bool {
    pow(i, half_order(p)) % p == 1
}

/// `base ^ e mod m`, as a key.
pub open spec fn power_mod(base: Key, e: Key, m: Key) -> Key {
    (pow(base as int, e as nat) % (m as int)) as Key
}

/// A modulus the exponentiation can work with.
pub open spec fn valid_modulus(p: int) -> bool {
    2 <= p <= MAX_MODULUS
}

/// `g` is what the descending generator search finds for `p`: the largest
/// `i` in `[2, p / 2)` that passes the generator test.
pub open spec fn is_found_root(p: int, g: int) -> bool {
    &&& 2 <= g < p / 2
    &&& !half_power_is_one(p, g)
    &&& forall|j: int| g < j < p / 2 ==> #[trigger] half_power_is_one(p, j)
}

/// No `i` in `[2, p / 2)` passes the generator test.
pub open spec fn has_no_root(p: int) -> bool {
    forall|j: int| 2 <= j < p / 2 ==> #[trigger] half_power_is_one(p, j)
}

/// Relies on num_prime's `RandPrime::gen_prime_exact` for `u128`, fed by
/// rand's thread-local generator: a random prime with bit `bits - 1` set. The
/// source takes a random odd `t` with that bit set and returns it if it tests
/// prime, else the next prime above it, so the result is at least `t`. Below
/// 2^64 its primality test is deterministic; above, it is probabilistic. It
/// panics for a bit size of 0 or above 128.
#[verifier::external_body]
pub fn generate_key(bits: usize) -> (r: Key)
    requires
        1 <= bits <= 128,
    ensures
        r >= 2,
        r >= pow2((bits - 1) as nat),
        r < MAX_MODULUS ==> is_prime(r as int),
{
    let mut rng = rand::thread_rng();
    rng.gen_prime_exact(bits, None)
}

proof fn lemma_square_step(res: int, base: int, e: nat, p: int)
    requires
        p > 0,
    ensures
        (res * pow(base, e)) % p == (((res * pow(base, e % 2)) % p) * pow((base * base) % p, e / 2)) % p,
{
    let h = e / 2;
    let t = e % 2;
    assert(e == 2 * h + t);
    lemma_pow_adds(base, 2 * h, t);
    lemma_pow_multiplies(base, 2, h);
    reveal_with_fuel(pow, 3);
    assert(pow(base, 2) == base * base);
    lemma_pow_mod_noop(base * base, h, p);
    let x = res * pow(base, t);
    let z = pow(base * base, h);
    let z2 = pow((base * base) % p, h);
    assert(pow(base, e) == z * pow(base, t));
    assert(res * pow(base, e) == x * z) by (nonlinear_arith)
        requires
            pow(base, e) == z * pow(base, t),
            x == res * pow(base, t),
    ;
    lemma_mul_mod_noop_general(x, z, p);
    lemma_mul_mod_noop_general(x, z2, p);
}

/// `g ^ power mod p` by square-and-multiply; the base is reduced first and a
/// zero exponent gives 1.
pub fn mod_power(g: Key, power: Key, p: Key) -> (r: Key)
    requires
        valid_modulus(p as int),
    ensures
        r == pow(g as int, power as nat) % (p as int),
        r < p,
{
    let mut res: Key = 1;
    let mut base: Key = g % p;
    let mut e: Key = power;
    proof {
        lemma_pow_mod_noop(g as int, power as nat, p as int);
        lemma_pow0(base as int);
        lemma_small_mod(1, p as nat);
    }
    while e > 0
        invariant
            valid_modulus(p as int),
            res < p,
            base < p,
            (res * pow(base as int, e as nat)) % (p as int) == pow(g as int, power as nat) % (p as int),
        decreases e,
    {
        proof {
            lemma_square_step(res as int, base as int, e as nat, p as int);
            lemma_pow0(base as int);
            lemma_pow1(base as int);
            lemma_small_mod(res as nat, p as nat);
        }
        let ghost old_res = res;
        let ghost old_base = base;
        let ghost old_e = e;
        assert(res * base < 0x1_0000_0000_0000_0000_0000_0000_0000_0000) by (nonlinear_arith)
            requires
                res < p,
                base < p,
                p <= MAX_MODULUS,
        ;
        assert(base * base < 0x1_0000_0000_0000_0000_0000_0000_0000_0000) by (nonlinear_arith)
            requires
                base < p,
                p <= MAX_MODULUS,
        ;
        let odd = (e & 1) == 1;
        assert(odd == (e % 2 == 1)) by (bit_vector)
            requires
                odd == ((e & 1) == 1),
        ;
        if odd {
            res = (res * base) % p;
        } else {
            assert(res * 1 == res);
        }
        assert((e >> 1) == e / 2) by (bit_vector);
        e = e >> 1;
        base = (base * base) % p;
        assert(res as int == (old_res * pow(old_base as int, (old_e % 2) as nat)) % (p as int));
    }
    proof {
        lemma_pow0(base as int);
        lemma_small_mod(res as nat, p as nat);
    }
    res
}

/// Searches `[2, prime / 2)` from the top down for the first `i` with
/// `i ^ ((prime - 1) / 2) mod prime != 1`.
pub fn get_primitive_root(prime: Key) -> (r: Option<Key>)
    requires
        valid_modulus(prime as int),
    ensures
        match r {
            Some(g) => is_found_root(prime as int, g as int),
            None => has_no_root(prime as int),
        },
{
    let pm1: Key = prime - 1;
    let k: Key = pm1 >> 1;
    assert((pm1 >> 1) == pm1 / 2) by (bit_vector);
    let mut i: Key = prime / 2;
    while i > 2
        invariant
            valid_modulus(prime as int),
            k == half_order(prime as int),
            i <= prime / 2,
            forall|j: int| i <= j < prime / 2 ==> #[trigger] half_power_is_one(prime as int, j),
        decreases i,
    {
        i = i - 1;
        if mod_power(i, k, prime) != 1 {
            return Some(i);
        }
    }
    None
}

/// Both peers derive the same secret: `(g^a)^b == (g^b)^a == g^(a*b)`, all
/// modulo `p`.
pub proof fn lemma_handshake_symmetry(p: int, g: int, a: nat, b: nat)
    requires
        p > 0,
    ensures
        pow(pow(g, a) % p, b) % p == pow(g, a * b) % p,
        pow(pow(g, b) % p, a) % p == pow(g, a * b) % p,
{
    lemma_pow_mod_noop(pow(g, a), b, p);
    lemma_pow_mod_noop(pow(g, b), a, p);
    lemma_pow_multiplies(g, a, b);
    lemma_pow_multiplies(g, b, a);
    assert(a * b == b * a) by (nonlinear_arith);
}

/// The handshake symmetry over keys: `(g^a)^b == (g^b)^a == g^(a*b)`, all
/// modulo `p`.
pub proof fn lemma_power_mod_agrees(p: Key, g: Key, a: Key, b: Key)
    requires
        valid_modulus(p as int),
    ensures
        power_mod(power_mod(g, a, p), b, p) == power_mod(power_mod(g, b, p), a, p),
        power_mod(power_mod(g, b, p), a, p) as int == pow(g as int, (a * b) as nat) % (p as int),
{
    lemma_handshake_symmetry(p as int, g as int, a as nat, b as nat);
    assert(a as nat * b as nat == b as nat * a as nat) by (nonlinear_arith);
}

} // verus!
