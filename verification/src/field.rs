//! Modular arithmetic over a small prime modulus.
//!
//! The native field of the modeled circuit is a prime field whose modulus
//! fits in a machine word; every operation here is exact `u64`/`u128`
//! arithmetic with a proved relation to mathematical `%`.

use vstd::prelude::*;
use vstd::arithmetic::div_mod::*;
use vstd::arithmetic::mul::*;
use vstd::arithmetic::power2::*;

verus! {

/// `p` has no divisor strictly between 1 and itself.
pub open spec fn is_prime(p: nat) -> bool {
    p >= 2 && forall|d: nat| 1 < d < p ==> #[trigger] (p % d) != 0
}

/// `d` divides `x` exactly.
pub open spec fn divides(d: int, x: int) -> bool
    recommends
        d > 0,
{
    x % d == 0
}

/// A common divisor of `x` and `y` also divides `x - q * y`.
proof fn lemma_divides_combination(d: int, x: int, y: int, q: int)
    requires
        d > 0,
        divides(d, x),
        divides(d, y),
    ensures
        divides(d, x - q * y),
{
    lemma_fundamental_div_mod(x, d);
    lemma_fundamental_div_mod(y, d);
    assert(x - q * y == (x / d - q * (y / d)) * d) by (nonlinear_arith)
        requires x == d * (x / d), y == d * (y / d);
    lemma_mod_multiples_basic(x / d - q * (y / d), d);
}

/// Reducing either operand of a subtraction first does not change the
/// reduced difference.
pub proof fn lemma_mod_sub_any(a: int, b: int, p: int)
    requires
        p > 0,
    ensures
        ((a % p) - (b % p)) % p == (a - b) % p,
        ((a % p) - b) % p == (a - b) % p,
        (a - (b % p)) % p == (a - b) % p,
{
    lemma_sub_mod_noop(a, b, p);
    lemma_sub_mod_noop_right(a, b, p);
    lemma_sub_mod_noop_right(a % p, b, p);
    lemma_mod_twice(a, p);
    lemma_sub_mod_noop(a % p, b, p);
}

/// Reducing either operand of an addition first does not change the
/// reduced sum.
pub proof fn lemma_mod_add_any(a: int, b: int, p: int)
    requires
        p > 0,
    ensures
        ((a % p) + (b % p)) % p == (a + b) % p,
        ((a % p) + b) % p == (a + b) % p,
        (a + (b % p)) % p == (a + b) % p,
{
    lemma_add_mod_noop(a, b, p);
    lemma_add_mod_noop_right(a, b, p);
    lemma_add_mod_noop_right(a % p, b, p);
    lemma_mod_twice(a, p);
    lemma_add_mod_noop(a % p, b, p);
}

/// Two integers are congruent exactly when their difference reduces to zero.
pub proof fn lemma_mod_eq_iff_sub_zero(a: int, b: int, p: int)
    requires
        p > 0,
    ensures
        (a % p == b % p) <==> ((a - b) % p == 0),
{
    lemma_mod_sub_any(a, b, p);
    lemma_mod_bound(a, p);
    lemma_mod_bound(b, p);
    let v = a % p - b % p;
    if a % p == b % p {
        lemma_small_mod(0, p as nat);
    }
    if (a - b) % p == 0 {
        if v >= 0 {
            lemma_small_mod(v as nat, p as nat);
        } else {
            lemma_add_mod_noop_right(p, v, p);
            lemma_mod_self_0(p);
            lemma_small_mod((p + v) as nat, p as nat);
            assert((p + (v % p)) % p == (p + v) % p);
        }
    }
}

/// A reduced modular inverse, as a value: meaningful whenever one exists.
pub open spec fn inv_mod(x: int, p: int) -> int {
    choose|i: int| 0 <= i < p && #[trigger] ((i * x) % p) == 1
}

/// An inverse below the modulus is unique, so any witness equals `inv_mod`.
pub proof fn lemma_inv_mod_unique(x: int, p: int, i: int)
    requires
        p > 1,
        0 <= i < p,
        (i * x) % p == 1,
    ensures
        inv_mod(x, p) == i,
{
    let j = inv_mod(x, p);
    assert(0 <= j < p && (j * x) % p == 1);
    // j == j * (i * x) == i * (j * x) == i, all modulo p.
    lemma_mul_mod_noop_right(j, i * x, p);
    assert((j * ((i * x) % p)) % p == (j * (i * x)) % p);
    assert(j * 1 == j);
    assert(j * (i * x) == i * (j * x)) by (nonlinear_arith);
    lemma_mul_mod_noop_right(i, j * x, p);
    assert((i * ((j * x) % p)) % p == (i * (j * x)) % p);
    assert(i * 1 == i);
    lemma_small_mod(i as nat, p as nat);
    lemma_small_mod(j as nat, p as nat);
}

/// `(a + b) % p`.
pub fn mod_add(a: u64, b: u64, p: u64) -> (r: u64)
    requires
        p > 0,
        a < p,
        b < p,
    ensures
        r < p,
        r == (a + b) % (p as int),
{
    proof {
        lemma_mod_bound((a + b) as int, p as int);
    }
    (((a as u128) + (b as u128)) % (p as u128)) as u64
}

/// `(a - b) % p`, computed without going negative.
pub fn mod_sub(a: u64, b: u64, p: u64) -> (r: u64)
    requires
        p > 0,
        a < p,
        b < p,
    ensures
        r < p,
        r == (a - b) % (p as int),
{
    proof {
        lemma_mod_bound((a + p - b) as int, p as int);
        // a + p - b differs from a - b by one multiple of p.
        lemma_add_mod_noop((a - b) as int, p as int, p as int);
        lemma_mod_self_0(p as int);
        lemma_mod_twice((a - b) as int, p as int);
    }
    (((a as u128) + (p as u128) - (b as u128)) % (p as u128)) as u64
}

/// `(a * b) % p`.
pub fn mod_mul(a: u64, b: u64, p: u64) -> (r: u64)
    requires
        p > 0,
        a < p,
        b < p,
    ensures
        r < p,
        r == (a * b) % (p as int),
{
    proof {
        lemma_mul_upper_bound(a as int, 18446744073709551615, b as int, 18446744073709551615);
        lemma_mod_bound((a * b) as int, p as int);
    }
    (((a as u128) * (b as u128)) % (p as u128)) as u64
}

/// `pow2(e) % p`, by repeated doubling.
pub fn pow2_mod(e: u32, p: u64) -> (r: u64)
    requires
        p > 0,
    ensures
        r < p,
        r == pow2(e as nat) % (p as nat),
{
    let mut acc: u64 = 1 % p;
    let mut i: u32 = 0;
    proof {
        lemma2_to64();
    }
    while i < e
        invariant
            p > 0,
            i <= e,
            acc < p,
            acc == pow2(i as nat) % (p as nat),
        decreases e - i,
    {
        proof {
            lemma_pow2_adds(1, i as nat);
            lemma2_to64();
            lemma_mul_mod_noop_right(2, pow2(i as nat) as int, p as int);
        }
        acc = mod_add(acc, acc, p);
        i = i + 1;
    }
    acc
}

/// Primality test by trial division.
pub fn check_prime(p: u64) -> (r: bool)
    ensures
        r == is_prime(p as nat),
{
    if p < 2 {
        return false;
    }
    let mut i: u64 = 2;
    while (i as u128) * (i as u128) <= (p as u128)
        invariant
            2 <= i <= p,
            p >= 2,
            (i as int) * (i as int) <= 340282366920938463463374607431768211455,
            forall|d: nat| 1 < d < i ==> #[trigger] ((p as nat) % d) != 0,
        decreases p - i,
    {
        proof {
            assert(i * i <= p) by (nonlinear_arith)
                requires (i as u128) * (i as u128) <= (p as u128);
            assert(i < p) by (nonlinear_arith) requires i >= 2, i * i <= p;
            assert((i + 1) * (i + 1) <= 340282366920938463463374607431768211455)
                by (nonlinear_arith)
                requires i + 1 <= 18446744073709551615;
        }
        if p % i == 0 {
            proof {
                assert((p as nat) % (i as nat) == 0);
            }
            return false;
        }
        i = i + 1;
    }
    proof {
        assert forall|d: nat| 1 < d < p implies #[trigger] ((p as nat) % d) != 0 by {
            if (p as nat) % d == 0 && d >= i {
                lemma_fundamental_div_mod(p as int, d as int);
                let e = (p as int) / (d as int);
                lemma_div_pos_is_pos(p as int, d as int);
                // p == d * e with 0 < e; e == 1 would force d == p.
                assert(e >= 2) by (nonlinear_arith)
                    requires p == d * e, 1 < d < p, e >= 0;
                // d >= i and i * i > p force e < i.
                assert(e < i) by (nonlinear_arith)
                    requires p == d * e, d >= i, (i as u128) * (i as u128) > (p as u128), e >= 2, i >= 2;
                lemma_mod_multiples_basic(d as int, e);
                assert(p as int == d * e);
                assert((d * e) % e == 0) by {
                    lemma_mul_is_commutative(d as int, e);
                };
                assert((p as nat) % (e as nat) == 0);
            }
        }
    }
    true
}

/// Modular inverse by the extended Euclidean algorithm, with the Bezout
/// coefficient tracked modulo `p`.  Primality guarantees the run ends at
/// remainder 1, so an inverse is always returned.
pub fn mod_inverse(v: u64, p: u64) -> (r: u64)
    requires
        is_prime(p as nat),
        0 < v < p,
    ensures
        r < p,
        (r * v) % (p as int) == 1,
{
    let mut old_r: u64 = p;
    let mut rr: u64 = v;
    let mut old_t: u64 = 0;
    let mut tt: u64 = 1;
    proof {
        lemma_mod_self_0(p as int);
        lemma_small_mod(v as nat, p as nat);
        lemma_small_mod(0, p as nat);
        assert(0 * (v as int) == 0);
        assert(1 * (v as int) == v);
    }
    while rr != 0
        invariant
            is_prime(p as nat),
            0 < v < p,
            0 < old_r <= p,
            rr < old_r,
            old_t < p,
            tt < p,
            (old_r as int) % (p as int) == (old_t * v) % (p as int),
            (rr as int) % (p as int) == (tt * v) % (p as int),
            forall|d: int|
                d > 0 ==> ((divides(d, old_r as int) && divides(d, rr as int)) <==> (divides(
                    d,
                    p as int,
                ) && divides(d, v as int))),
        decreases rr,
    {
        let q = old_r / rr;
        let new_r = old_r % rr;
        let qm = q % p;
        let new_t = mod_sub(old_t, mod_mul(qm, tt, p), p);
        proof {
            let pi = p as int;
            lemma_fundamental_div_mod(old_r as int, rr as int);
            assert(new_r as int == old_r - q * rr);
            // new_r is congruent to (old_t - q * tt) * v.
            lemma_mul_mod_noop_left(q as int, tt as int, pi);
            assert((qm * tt) % pi == (q * tt) % pi);
            assert(new_t as int == (old_t - (q * tt) % pi) % pi);
            lemma_sub_mod_noop_right(old_t as int, (q * tt) as int, pi);
            assert((old_t - (q * tt) % pi) % pi == (old_t - q * tt) % pi);
            assert(new_t as int == (old_t - q * tt) % pi);
            // Congruence of the new remainder.
            lemma_sub_mod_noop_right(old_r as int, q * rr, pi);
            lemma_mul_mod_noop_right(q as int, rr as int, pi);
            lemma_mul_mod_noop_right(q as int, (tt * v) as int, pi);
            assert((q * rr) % pi == (q * ((rr as int) % pi)) % pi);
            assert((rr as int) % pi == (tt * v) % pi);
            assert((q * ((tt * v) % pi)) % pi == (q * (tt * v)) % pi);
            assert((old_r - q * rr) % pi == ((old_r as int) % pi - (q * rr) % pi) % pi) by {
                lemma_sub_mod_noop((old_r as int), q * rr, pi);
                lemma_mod_twice((old_r as int), pi);
                lemma_mod_twice(q * rr, pi);
                lemma_sub_mod_noop((old_r as int) % pi, (q * rr) % pi, pi);
            };
            assert(((old_t * v) % pi - (q * (tt * v)) % pi) % pi == (old_t * v - q * (tt * v)) % pi)
                by {
                lemma_sub_mod_noop(old_t * v, q * (tt * v), pi);
                lemma_mod_twice(old_t * v, pi);
                lemma_mod_twice(q * (tt * v), pi);
                lemma_sub_mod_noop((old_t * v) % pi, (q * (tt * v)) % pi, pi);
            };
            assert(old_t * v - q * (tt * v) == (old_t - q * tt) * v) by (nonlinear_arith);
            assert((new_r as int) % pi == ((old_t - q * tt) * v) % pi);
            lemma_mul_mod_noop_left((old_t - q * tt) as int, v as int, pi);
            assert((new_t * v) % pi == ((old_t - q * tt) * v) % pi);
            // Divisor preservation in both directions.
            assert forall|d: int| d > 0 implies ((divides(d, rr as int) && divides(
                d,
                new_r as int,
            )) <==> (divides(d, p as int) && divides(d, v as int))) by {
                if divides(d, rr as int) && divides(d, new_r as int) {
                    lemma_divides_combination(d, new_r as int, rr as int, -(q as int));
                    assert(new_r - (-(q as int)) * (rr as int) == old_r as int) by (nonlinear_arith)
                        requires new_r as int == old_r - q * rr;
                }
                if divides(d, p as int) && divides(d, v as int) {
                    lemma_divides_combination(d, old_r as int, rr as int, q as int);
                }
            }
        }
        old_r = rr;
        rr = new_r;
        old_t = tt;
        tt = new_t;
    }
    proof {
        let pi = p as int;
        lemma_mod_self_0(old_r as int);
        assert(divides(old_r as int, old_r as int));
        lemma_small_mod(0, old_r as nat);
        assert(divides(old_r as int, 0));
        assert(divides(old_r as int, pi) && divides(old_r as int, v as int));
        // A positive divisor of the prime p that also divides 0 < v < p is 1.
        if old_r != 1 {
            assert((p as nat) % (old_r as nat) == 0);
            if old_r < p {
                assert(1 < old_r < p);
                assert(false);
            } else {
                lemma_small_mod(v as nat, p as nat);
                assert((v as int) % pi == v);
                assert(false);
            }
        }
        lemma_small_mod(1, p as nat);
        assert((old_t * v) % pi == 1);
    }
    old_t
}

/// A square root modulo `p`, found by exhaustive search; intended for the
/// small moduli this crate's instances use.
pub fn sqrt_mod(v: u64, p: u64) -> (r: Option<u64>)
    requires
        p > 0,
        v < p,
    ensures
        match r {
            Some(y) => y < p && (y * y) % (p as int) == v,
            None => forall|y: int| 0 <= y < p ==> #[trigger] ((y * y) % (p as int)) != v,
        },
{
    let mut y: u64 = 0;
    while y < p
        invariant
            p > 0,
            v < p,
            y <= p,
            forall|j: int| 0 <= j < y ==> #[trigger] ((j * j) % (p as int)) != v,
        decreases p - y,
    {
        if mod_mul(y, y, p) == v {
            return Some(y);
        }
        y = y + 1;
    }
    None
}

} // verus!
