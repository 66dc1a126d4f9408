//! Fermat's little theorem, and with it what a found generator satisfies
//! modulo a prime.
use vstd::prelude::*;
use vstd::arithmetic::power::*;
use vstd::arithmetic::div_mod::*;
use crate::number_theory::{half_power_is_one, is_found_root};

verus! {

/// `p` is prime.
pub open spec fn is_prime(p: int) -> bool {
    &&& p >= 2
    &&& forall|d: int| 2 <= d < p ==> #[trigger] (p % d) != 0
}

/// The binomial coefficient, by Pascal's rule.
pub open spec fn binomial(n: nat, k: nat) -> nat
    decreases n,
{
    if k == 0 {
        1
    } else if n == 0 {
        0
    } else {
        binomial((n - 1) as nat, (k - 1) as nat) + binomial((n - 1) as nat, k)
    }
}

/// `sum over i in [0, k] of binomial(n, i) * x^i`.
pub open spec fn binomial_sum(x: int, n: nat, k: nat) -> int
    decreases k,
{
    if k == 0 {
        1
    } else {
        binomial_sum(x, n, (k - 1) as nat) + binomial(n, k) * pow(x, k)
    }
}

proof fn lemma_choose_above(n: nat, k: nat)
    requires
        k > n,
    ensures
        binomial(n, k) == 0,
    decreases n,
{
    if n > 0 {
        lemma_choose_above((n - 1) as nat, (k - 1) as nat);
        lemma_choose_above((n - 1) as nat, k);
    }
}

proof fn lemma_choose_all(n: nat)
    ensures
        binomial(n, n) == 1,
    decreases n,
{
    if n > 0 {
        lemma_choose_all((n - 1) as nat);
        lemma_choose_above((n - 1) as nat, n);
    }
}

proof fn lemma_binomial_sum_step(x: int, n: nat, k: nat)
    requires
        k >= 1,
    ensures
        binomial_sum(x, n + 1, k) == binomial_sum(x, n, k) + x * binomial_sum(x, n, (k - 1) as nat),
    decreases k,
{
    reveal(pow);
    if k == 1 {
        assert(binomial(n + 1, 1) == binomial(n, 0) + binomial(n, 1));
        assert(binomial(n, 0) == 1);
        assert(pow(x, 0) == 1);
        assert(pow(x, 1) == x * pow(x, 0));
        assert(pow(x, 1) == x);
        assert(binomial_sum(x, n + 1, 0) == 1);
        assert(binomial_sum(x, n, 0) == 1);
        assert(binomial_sum(x, n + 1, 1) == 1 + (1 + binomial(n, 1)) * x);
        assert(binomial_sum(x, n, 1) == 1 + binomial(n, 1) * x);
        assert((1 + binomial(n, 1)) * x == x + binomial(n, 1) * x) by (nonlinear_arith);
    } else {
        lemma_binomial_sum_step(x, n, (k - 1) as nat);
        let c1 = binomial(n, (k - 1) as nat);
        let c2 = binomial(n, k);
        assert(binomial(n + 1, k) == c1 + c2);
        let pk = pow(x, k);
        let pk1 = pow(x, (k - 1) as nat);
        assert(pk == x * pk1);
        assert((c1 + c2) * pk == c2 * pk + x * (c1 * pk1)) by (nonlinear_arith)
            requires
                pk == x * pk1,
        ;
        let s = binomial_sum(x, n, (k - 2) as nat);
        assert(x * (s + c1 * pk1) == x * s + x * (c1 * pk1)) by (nonlinear_arith);
    }
}

/// `(x + 1)^n` is the binomial sum.
proof fn lemma_binomial(x: int, n: nat)
    ensures
        pow(x + 1, n) == binomial_sum(x, n, n),
    decreases n,
{
    reveal(pow);
    if n > 0 {
        let m = (n - 1) as nat;
        lemma_binomial(x, m);
        lemma_binomial_sum_step(x, m, n);
        lemma_choose_above(m, n);
        let s = binomial_sum(x, m, m);
        assert(binomial_sum(x, m, n) == s);
        assert((x + 1) * s == s + x * s) by (nonlinear_arith);
    }
}

/// `k * binomial(n, k) == n * binomial(n - 1, k - 1)`.
proof fn lemma_absorption(n: nat, k: nat)
    requires
        n >= 1,
        k >= 1,
    ensures
        k * binomial(n, k) == n * binomial((n - 1) as nat, (k - 1) as nat),
    decreases n,
{
    let lhs = binomial(n, k);
    let rhs = binomial((n - 1) as nat, (k - 1) as nat);
    if n == 1 {
        if k >= 2 {
            lemma_choose_above(1, k);
            lemma_choose_above(0, (k - 1) as nat);
            assert(k * lhs == n * rhs) by (nonlinear_arith)
                requires
                    lhs == 0,
                    rhs == 0,
            ;
        } else {
            assert(binomial(0, 0) == 1);
            assert(binomial(0, 1) == 0);
            assert(binomial(1, 1) == binomial(0, 0) + binomial(0, 1));
            assert(k * lhs == n * rhs) by (nonlinear_arith)
                requires
                    k == 1,
                    n == 1,
                    lhs == 1,
                    rhs == 1,
            ;
        }
    } else if k == 1 {
        lemma_absorption((n - 1) as nat, 1);
        assert(binomial((n - 2) as nat, 0) == 1);
        assert(binomial((n - 1) as nat, 0) == 1);
        assert(binomial(n, 1) == binomial((n - 1) as nat, 0) + binomial((n - 1) as nat, 1));
        let prev = binomial((n - 1) as nat, 1);
        assert(prev == n - 1) by (nonlinear_arith)
            requires
                1 * prev == (n - 1) * 1,
        ;
        assert(k * lhs == n * rhs) by (nonlinear_arith)
            requires
                k == 1,
                lhs == n,
                rhs == 1,
        ;
    } else {
        let a = binomial((n - 1) as nat, (k - 1) as nat);
        let b = binomial((n - 1) as nat, k);
        let c = binomial((n - 2) as nat, (k - 2) as nat);
        let d = binomial((n - 2) as nat, (k - 1) as nat);
        lemma_absorption((n - 1) as nat, (k - 1) as nat);
        lemma_absorption((n - 1) as nat, k);
        assert(a == c + d);
        assert(binomial(n, k) == a + b);
        assert(k * (a + b) == n * a) by (nonlinear_arith)
            requires
                (k - 1) * a == (n - 1) * c,
                k * b == (n - 1) * d,
                a == c + d,
        ;
    }
}

/// Euclid's lemma: a prime that divides `a * b` with `0 < a < p` divides `b`.
proof fn lemma_euclid(p: int, a: int, b: int)
    requires
        is_prime(p),
        0 < a < p,
        (a * b) % p == 0,
    ensures
        b % p == 0,
    decreases a,
{
    if a > 1 {
        let q = p / a;
        let r = p % a;
        lemma_fundamental_div_mod(p, a);
        assert(r != 0);
        lemma_mod_bound(p, a);
        let t = (a * b) / p;
        lemma_fundamental_div_mod(a * b, p);
        assert(r * b == p * (b - q * t)) by (nonlinear_arith)
            requires
                p == a * q + r,
                a * b == p * t + 0,
        ;
        lemma_mod_multiples_basic(b - q * t, p);
        assert((b - q * t) * p == p * (b - q * t)) by (nonlinear_arith);
        lemma_euclid(p, r, b);
    } else {
        assert(a * b == b) by (nonlinear_arith)
            requires
                a == 1,
        ;
    }
}

/// A prime divides every inner binomial coefficient of its row.
proof fn lemma_prime_divides_choose(p: int, k: nat)
    requires
        is_prime(p),
        0 < k < p,
    ensures
        (binomial(p as nat, k) as int) % p == 0,
{
    lemma_absorption(p as nat, k);
    let m = binomial((p - 1) as nat, (k - 1) as nat) as int;
    lemma_mod_multiples_basic(m, p);
    assert(m * p == p * m) by (nonlinear_arith);
    lemma_euclid(p, k as int, binomial(p as nat, k) as int);
}

proof fn lemma_inner_sum(x: int, p: int, k: nat)
    requires
        is_prime(p),
        k < p,
    ensures
        binomial_sum(x, p as nat, k) % p == 1,
    decreases k,
{
    if k == 0 {
        lemma_small_mod(1, p as nat);
    } else {
        lemma_inner_sum(x, p, (k - 1) as nat);
        lemma_prime_divides_choose(p, k);
        let c = binomial(p as nat, k) as int;
        let m = c / p;
        lemma_fundamental_div_mod(c, p);
        let s = binomial_sum(x, p as nat, (k - 1) as nat);
        assert(c * pow(x, k) == p * (m * pow(x, k))) by (nonlinear_arith)
            requires
                c == p * m + 0,
        ;
        lemma_mod_multiples_vanish(m * pow(x, k), s, p);
    }
}

/// `(x + 1)^p` and `x^p + 1` agree modulo a prime `p`.
proof fn lemma_freshman(x: int, p: int)
    requires
        is_prime(p),
    ensures
        pow(x + 1, p as nat) % p == (pow(x, p as nat) + 1) % p,
{
    reveal(pow);
    lemma_binomial(x, p as nat);
    let m = (p - 1) as nat;
    lemma_inner_sum(x, p, m);
    lemma_choose_all(p as nat);
    let s = binomial_sum(x, p as nat, m);
    assert(binomial_sum(x, p as nat, p as nat) == s + pow(x, p as nat));
    lemma_add_mod_noop(s, pow(x, p as nat), p);
    lemma_add_mod_noop(1, pow(x, p as nat), p);
    lemma_small_mod(1, p as nat);
}

/// `a^p` and `a` agree modulo a prime `p`.
proof fn lemma_pow_prime(a: nat, p: int)
    requires
        is_prime(p),
    ensures
        pow(a as int, p as nat) % p == (a as int) % p,
    decreases a,
{
    if a == 0 {
        lemma_zero_pow(p as nat);
    } else {
        let b = (a - 1) as nat;
        lemma_pow_prime(b, p);
        lemma_freshman(b as int, p);
        lemma_add_mod_noop(pow(b as int, p as nat), 1, p);
        lemma_add_mod_noop(b as int, 1, p);
    }
}

proof fn lemma_zero_pow(e: nat)
    requires
        e >= 1,
    ensures
        pow(0, e) == 0,
{
    reveal(pow);
}

/// Fermat's little theorem: `g^(p - 1) mod p == 1` for a prime `p` and
/// `0 < g < p`.
pub proof fn lemma_fermat(p: int, g: int)
    requires
        is_prime(p),
        0 < g < p,
    ensures
        pow(g, (p - 1) as nat) % p == 1,
{
    reveal(pow);
    lemma_pow_prime(g as nat, p);
    lemma_small_mod(g as nat, p as nat);
    let h = pow(g, (p - 1) as nat);
    assert(pow(g, p as nat) == g * h);
    lemma_pow_positive(g, (p - 1) as nat);
    let t = (g * h) / p;
    lemma_fundamental_div_mod(g * h, p);
    assert(g * (h - 1) == p * t) by (nonlinear_arith)
        requires
            g * h == p * t + g,
    ;
    lemma_mod_multiples_basic(t, p);
    assert(t * p == p * t) by (nonlinear_arith);
    lemma_euclid(p, g, h - 1);
    lemma_fundamental_div_mod(h - 1, p);
    lemma_mod_multiples_vanish((h - 1) / p, 1, p);
    lemma_small_mod(1, p as nat);
    assert(h == p * ((h - 1) / p) + 1);
}

/// For a prime modulus, the generator the descending search finds satisfies
/// `g^(p - 1) mod p == 1` and `g^((p - 1) / 2) mod p != 1`.
pub proof fn lemma_found_root_orders(p: int, g: int)
    requires
        is_prime(p),
        is_found_root(p, g),
    ensures
        pow(g, (p - 1) as nat) % p == 1,
        !half_power_is_one(p, g),
{
    lemma_fermat(p, g);
}

} // verus!
