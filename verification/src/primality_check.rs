//! Deterministic Miller-Rabin primality testing for `u64`.
//!
//! `is_prime` is specified as exactly the decision of the Miller-Rabin
//! procedure over two fixed witness lists.  That this decision coincides
//! with primality for every `u64` is a known number-theoretic fact about
//! these witness sets, outside what is proved here; what is proved is that
//! the code computes precisely that decision, with all the modular
//! exponentiation pinned to `pow`.

use vstd::arithmetic::div_mod::lemma_mod_bound;
use vstd::arithmetic::div_mod::lemma_mul_mod_noop_general;
use vstd::arithmetic::div_mod::lemma_small_mod;
use vstd::arithmetic::power::lemma_pow1;
use vstd::arithmetic::power::lemma_pow_adds;
use vstd::arithmetic::power::lemma_pow_mod_noop;
use vstd::arithmetic::power::lemma_pow_multiplies;
use vstd::arithmetic::power::lemma_pow0;
use vstd::arithmetic::power::pow;
use vstd::arithmetic::power2::lemma2_to64;
use vstd::arithmetic::power2::lemma_pow2_strictly_increases;
use vstd::arithmetic::power2::pow2;
use vstd::prelude::*;

verus! {

/// The odd factor of `m`: what remains after all factors of two are gone.
pub open spec fn odd_part(m: nat) -> nat
    decreases m,
{
    if m == 0 {
        0
    } else if m % 2 == 1 {
        m
    } else {
        odd_part(m / 2)
    }
}

/// How many factors of two `m` holds.
pub open spec fn two_exp(m: nat) -> nat
    decreases m,
{
    if m == 0 || m % 2 == 1 {
        0
    } else {
        1 + two_exp(m / 2)
    }
}

/// Base `a` does not witness compositeness of the odd number `n`: with
/// `n - 1 == d * 2^s` and `d` odd, either `a^d == 1 (mod n)`, or
/// `a^(d * 2^t) == n - 1 (mod n)` for some `t < s`.
pub open spec fn mr_passes(n: nat, a: nat) -> bool {
    let d = odd_part((n - 1) as nat);
    let s = two_exp((n - 1) as nat);
    ||| pow(a as int, d) % (n as int) == 1
    ||| exists|t: nat| t < s && pow(a as int, d * pow2(t)) % (n as int) == n - 1
}

/// The scan the Miller-Rabin loop performs over a witness list, from
/// position `i` on: a base at least `n` ends the scan accepting; a base
/// that witnesses compositeness ends it rejecting.
pub open spec fn mr_scan(n: nat, list: Seq<u64>, i: int) -> bool
    decreases list.len() - i,
{
    if i < 0 || i >= list.len() {
        true
    } else if n <= list[i] {
        true
    } else if !mr_passes(n, list[i] as nat) {
        false
    } else {
        mr_scan(n, list, i + 1)
    }
}

/// The decision of the deterministic Miller-Rabin test: trial handling of
/// the small and even cases, then the scan over one of two fixed witness
/// lists.  For 64-bit inputs this decision is known to coincide with
/// primality.
pub open spec fn is_prime_spec(n: u64) -> bool {
    if n <= 1 {
        false
    } else if n == 2 {
        true
    } else if n % 2 == 0 {
        false
    } else if n < 4759123141 {
        mr_scan(n as nat, seq![2u64, 7u64, 61u64], 0)
    } else {
        mr_scan(
            n as nat,
            seq![2u64, 325u64, 9375u64, 28178u64, 450775u64, 9780504u64, 1795265022u64],
            0,
        )
    }
}

/// Doubling recurrence of `pow2`, with the underlying `pow` kept opaque.
proof fn lemma_pow2_step(e: nat)
    ensures
        pow2(e + 1) == 2 * pow2(e),
        pow2(e) >= 1,
{
    vstd::arithmetic::power2::lemma_pow2(e);
    vstd::arithmetic::power2::lemma_pow2((e + 1) as nat);
    lemma_pow_adds(2, 1, e);
    lemma_pow1(2);
    vstd::arithmetic::power::lemma_pow_positive(2, e);
}

/// `base ^ exp` modulo `md`, by binary exponentiation.
#[verifier::loop_isolation(false)]
fn pow_mod(base: u64, exp: u64, md: u64) -> (r: u64)
    requires
        md >= 1,
    ensures
        r as int == pow(base as int, exp as nat) % (md as int),
{
    let md2: u128 = md as u128;
    let mut b: u128 = (base as u128) % md2;
    let mut res: u128 = 1 % md2;
    let mut e: u64 = exp;
    proof {
        lemma_mod_bound(base as int, md as int);
        lemma_mod_bound(1int, md as int);
        lemma_pow_mod_noop(base as int, exp as nat, md as int);
        lemma_mul_mod_noop_general(1, pow(b as int, e as nat), md as int);
    }
    while e > 0
        invariant
            md2 == md as u128,
            md >= 1,
            b < md2,
            res < md2,
            (res as int * pow(b as int, e as nat)) % (md as int) == pow(
                base as int,
                exp as nat,
            ) % (md as int),
        decreases e,
    {
        let ghost res0 = res as int;
        let ghost b0 = b as int;
        let ghost e0 = e as nat;
        proof {
            assert(b0 * b0 < md2 * md2 && res0 * b0 < md2 * md2) by (nonlinear_arith)
                requires
                    0 <= b0 < md2,
                    0 <= res0 < md2,
                    md2 >= 1,
            ;
            assert(md2 * md2 <= u128::MAX) by (nonlinear_arith)
                requires
                    0 < md2 <= u64::MAX,
            ;
            // one squaring step: b^e == (b*b) ^ (e/2), times b when odd
            lemma_pow_adds(b0, 1, 1);
            lemma_pow1(b0);
            lemma_pow_multiplies(b0, 2, (e0 / 2) as nat);
            assert(pow(b0, 2) == b0 * b0);
            assert(pow(b0 * b0, (e0 / 2) as nat) == pow(b0, (2 * (e0 / 2)) as nat));
            if e0 % 2 == 1 {
                lemma_pow_adds(b0, 1, (e0 - 1) as nat);
                assert(pow(b0, e0) == b0 * pow(b0, (e0 - 1) as nat));
                assert(pow(b0, e0) == b0 * pow(b0 * b0, (e0 / 2) as nat));
            } else {
                assert(pow(b0 * b0, (e0 / 2) as nat) == pow(b0, e0));
            }
        }
        if e % 2 == 1 {
            res = (res * b) % md2;
            proof {
                // fold the multiplications back under one modulus
                lemma_mul_mod_noop_general(res0 * b0, pow(b0 * b0, (e0 / 2) as nat), md as int);
                assert(res0 * b0 * pow(b0 * b0, (e0 / 2) as nat) == res0 * pow(b0, e0))
                    by (nonlinear_arith)
                    requires
                        pow(b0, e0) == b0 * pow(b0 * b0, (e0 / 2) as nat),
                ;
                assert((res as int) == (res0 * b0) % (md as int));
                assert((res as int * pow(b0 * b0, (e0 / 2) as nat)) % (md as int) == (res0 * b0
                    * pow(b0 * b0, (e0 / 2) as nat)) % (md as int));
            }
        }
        b = (b * b) % md2;
        e = e / 2;
        proof {
            lemma_pow_mod_noop(b0 * b0, e as nat, md as int);
            lemma_mul_mod_noop_general(res as int, pow(b as int, e as nat), md as int);
            lemma_mul_mod_noop_general(res as int, pow(b0 * b0, e as nat), md as int);
            assert((res as int * pow(b as int, e as nat)) % (md as int) == (res as int * pow(
                b0 * b0,
                e as nat,
            )) % (md as int));
            if e0 % 2 == 1 {
                assert((res0 * b0 * pow(b0 * b0, e as nat)) % (md as int) == (res0 * pow(b0, e0))
                    % (md as int));
            } else {
                assert((res as int * pow(b0 * b0, e as nat)) % (md as int) == (res0 * pow(b0, e0))
                    % (md as int));
            }
        }
    }
    proof {
        lemma_pow0(b as int);
        lemma_small_mod(res as nat, md as nat);
    }
    res as u64
}

/// One Miller-Rabin round over every base of `test_list`, in order.
#[verifier::loop_isolation(false)]
fn miller_rabin(n: u64, test_list: &Vec<u64>) -> (r: bool)
    requires
        n >= 3,
        n % 2 == 1,
    ensures
        r == mr_scan(n as nat, test_list@, 0),
{
    let mut s: u64 = 0;
    let mut d: u64 = n - 1;
    proof {
        lemma2_to64();
    }
    while d % 2 == 0
        invariant
            1 <= d <= n - 1,
            s <= 64,
            pow2(s as nat) * d == (n - 1) as nat,
            odd_part((n - 1) as nat) == odd_part(d as nat),
            two_exp((n - 1) as nat) == s + two_exp(d as nat),
        decreases d,
    {
        proof {
            lemma_pow2_step(s as nat);
            assert(pow2((s + 1) as nat) == 2 * pow2(s as nat));
            assert(pow2((s + 1) as nat) * (d as nat / 2) == pow2(s as nat) * d) by (nonlinear_arith)
                requires
                    d % 2 == 0,
                    d >= 2,
                    pow2((s + 1) as nat) == 2 * pow2(s as nat),
            ;
            assert(s + 1 <= 64) by {
                if s >= 64 {
                    lemma_pow2_strictly_increases(64, (s + 1) as nat);
                    assert(pow2((s + 1) as nat) * (d as nat / 2) >= pow2((s + 1) as nat))
                        by (nonlinear_arith)
                        requires
                            d as nat / 2 >= 1,
                    ;
                }
            };
        }
        s = s + 1;
        d = d / 2;
    }
    let ghost dd = odd_part((n - 1) as nat);
    let ghost ss = two_exp((n - 1) as nat);
    proof {
        assert(dd == d as nat && ss == s as nat);
    }
    let mut i: usize = 0;
    while i < test_list.len()
        invariant
            mr_scan(n as nat, test_list@, 0) == mr_scan(n as nat, test_list@, i as int),
            i <= test_list@.len(),
        decreases test_list@.len() - i,
    {
        let a: u64 = test_list[i];
        if n <= a {
            return true;
        }
        let x0: u64 = pow_mod(a, d, n);
        proof {
            assert(pow2(0) == 1);
            assert(dd * pow2(0) == dd);
        }
        if x0 != 1 {
            let mut x: u128 = x0 as u128;
            let mut t: u64 = 0;
            let mut hit: bool = false;
            while t < s && !hit
                invariant
                    t <= s,
                    x < n as u128,
                    !hit ==> x as int == pow(a as int, (dd * pow2(t as nat)) as nat) % (n as int),
                    !hit ==> forall|t2: nat|
                        t2 < t ==> pow(a as int, (dd * pow2(t2)) as nat) % (n as int) != n - 1,
                    hit ==> exists|t2: nat|
                        t2 < ss && pow(a as int, (dd * pow2(t2)) as nat) % (n as int) == n - 1,
                decreases s - t, (if hit { 0int } else { 1int }),
            {
                if x as u64 == n - 1 {
                    proof {
                        assert(pow(a as int, (dd * pow2(t as nat)) as nat) % (n as int) == n - 1);
                    }
                    hit = true;
                } else {
                    let ghost x1 = x as int;
                    let ghost t1 = t as nat;
                    proof {
                        assert(x1 * x1 < (n as int) * (n as int) <= u128::MAX) by (nonlinear_arith)
                            requires
                                0 <= x1 < n as int,
                                0 < (n as int) <= u64::MAX,
                        ;
                    }
                    x = (x * x) % (n as u128);
                    t = t + 1;
                    proof {
                        lemma_mod_bound((x1 * x1) as int, n as int);
                        // squaring doubles the power-of-two factor of the exponent
                        let ex = (dd * pow2(t1)) as nat;
                        lemma_pow_multiplies(pow(a as int, ex), 1, 2);
                        lemma_pow1(pow(a as int, ex));
                        lemma_pow_adds(pow(a as int, ex), 1, 1);
                        lemma_pow_multiplies(a as int, ex, 2);
                        lemma_mul_mod_noop_general(
                            pow(a as int, ex),
                            pow(a as int, ex),
                            n as int,
                        );
                        lemma_pow2_step(t1);
                        assert(pow2((t1 + 1) as nat) == 2 * pow2(t1));
                        assert(ex * 2 == dd * pow2((t1 + 1) as nat)) by (nonlinear_arith)
                            requires
                                pow2((t1 + 1) as nat) == 2 * pow2(t1),
                                ex == dd * pow2(t1),
                        ;
                    }
                }
            }
            if !hit {
                proof {
                    assert(t == s);
                    assert(!mr_passes(n as nat, a as nat));
                    assert(!mr_scan(n as nat, test_list@, i as int));
                }
                return false;
            }
            proof {
                assert(mr_passes(n as nat, a as nat));
            }
        }
        proof {
            if x0 == 1 {
                assert(pow(a as int, dd) % (n as int) == 1) by {
                    assert(dd * pow2(0) == dd);
                };
                assert(mr_passes(n as nat, a as nat));
            }
            assert(mr_scan(n as nat, test_list@, i as int) == mr_scan(
                n as nat,
                test_list@,
                i as int + 1,
            ));
        }
        i = i + 1;
    }
    true
}

/// Whether `n` is accepted by the deterministic Miller-Rabin test — for
/// `u64` inputs, whether `n` is prime.
pub fn is_prime(n: u64) -> (r: bool)
    ensures
        r == is_prime_spec(n),
{
    if n <= 1 {
        return false;
    }
    if n == 2 {
        return true;
    }
    if n % 2 == 0 {
        return false;
    }
    if n < 4759123141 {
        let bases: Vec<u64> = vec![2, 7, 61];
        proof {
            assert(bases@ =~= seq![2u64, 7u64, 61u64]);
        }
        miller_rabin(n, &bases)
    } else {
        let bases: Vec<u64> = vec![2, 325, 9375, 28178, 450775, 9780504, 1795265022];
        proof {
            assert(bases@ =~= seq![
                2u64,
                325u64,
                9375u64,
                28178u64,
                450775u64,
                9780504u64,
                1795265022u64,
            ]);
        }
        miller_rabin(n, &bases)
    }
}

} // verus!
