//! Fibonacci numbers by the fast-doubling method.
//!
//! The evaluator walks the bits of `n` from the most significant down, keeping
//! the pair `(F(p), F(p+1))` for the prefix `p` of `n` read so far, and
//! advancing it with Dijkstra's identities
//! `F(2p) == F(p) * (2*F(p+1) - F(p))` and `F(2p+1) == F(p)^2 + F(p+1)^2`.

use vstd::prelude::*;
use vstd::arithmetic::div_mod::lemma_div_denominator;
use vstd::arithmetic::div_mod::lemma_fundamental_div_mod;
use vstd::arithmetic::power2::lemma_pow2_pos;
use vstd::arithmetic::power2::lemma_pow2_unfold;
use vstd::arithmetic::power2::pow2;

verus! {

/// The Fibonacci sequence: 0, 1, 1, 2, 3, 5, ...
pub open spec fn fib(n: nat) -> nat
    decreases n,
{
    if n == 0 {
        0
    } else if n == 1 {
        1
    } else {
        fib((n - 1) as nat) + fib((n - 2) as nat)
    }
}

/// The Fibonacci sequence is monotone.
pub proof fn lemma_fib_monotone(i: nat, j: nat)
    requires
        i <= j,
    ensures
        fib(i) <= fib(j),
    decreases j,
{
    if i < j && j >= 2 {
        lemma_fib_monotone(i, (j - 1) as nat);
    } else if i < j {
        assert(fib(0) == 0 && fib(1) == 1);
    }
}

/// The Fibonacci addition formula:
/// `F(m + n + 1) == F(m + 1) * F(n + 1) + F(m) * F(n)`.
pub proof fn lemma_fib_add(m: nat, n: nat)
    ensures
        fib(m + n + 1) == fib(m + 1) * fib(n + 1) + fib(m) * fib(n),
    decreases n,
{
    if n == 0 {
        assert(fib(m + 1) * 1 == fib(m + 1)) by (nonlinear_arith);
        assert(fib(m) * 0 == 0) by (nonlinear_arith);
    } else if n == 1 {
        assert(fib(m + 2) == fib(m + 1) + fib(m));
        assert(fib(m + 1) * 1 == fib(m + 1)) by (nonlinear_arith);
        assert(fib(m) * 1 == fib(m)) by (nonlinear_arith);
    } else {
        lemma_fib_add(m, (n - 1) as nat);
        lemma_fib_add(m, (n - 2) as nat);
        assert(fib(m + n + 1) == fib(m + n) + fib((m + n - 1) as nat));
        assert(fib(m + 1) * fib(n) + fib(m) * fib((n - 1) as nat) + (fib(m + 1) * fib(
            (n - 1) as nat,
        ) + fib(m) * fib((n - 2) as nat)) == fib(m + 1) * (fib(n) + fib((n - 1) as nat)) + fib(m)
            * (fib((n - 1) as nat) + fib((n - 2) as nat))) by (nonlinear_arith);
        assert(fib(n + 1) == fib(n) + fib((n - 1) as nat));
        assert(fib(n) == fib((n - 1) as nat) + fib((n - 2) as nat));
    }
}

/// Dijkstra's doubling identities.
pub proof fn lemma_fib_double(k: nat)
    requires
        k >= 1,
    ensures
        fib(2 * k) == fib(k) * (2 * fib(k + 1) - fib(k)),
        fib(2 * k + 1) == fib(k) * fib(k) + fib(k + 1) * fib(k + 1),
{
    lemma_fib_add(k, k);
    assert(fib(2 * k + 1) == fib(k + 1) * fib(k + 1) + fib(k) * fib(k));
    lemma_fib_add(k, (k - 1) as nat);
    assert(fib(2 * k) == fib(k + 1) * fib(k) + fib(k) * fib((k - 1) as nat));
    assert(fib(k + 1) == fib(k) + fib((k - 1) as nat));
    assert(fib(k + 1) * fib(k) + fib(k) * (fib(k + 1) - fib(k)) == fib(k) * (2 * fib(k + 1) - fib(
        k,
    ))) by (nonlinear_arith);
}

/// `F(186)` written out, reached by seven doubling steps; it is the largest
/// Fibonacci number below `2^128`.
pub proof fn lemma_fib_186()
    ensures
        fib(186) == 332825110087067562321196029789634457848,
        fib(186) <= u128::MAX,
{
    assert(fib(2) == 1 && fib(3) == 2) by {
        reveal_with_fuel(fib, 4);
    }
    lemma_fib_double(2);
    assert(fib(4) == 3 && fib(5) == 5);
    assert(fib(6) == 8);
    lemma_fib_double(5);
    assert(fib(10) == 55 && fib(11) == 89);
    assert(fib(12) == 144);
    lemma_fib_double(11);
    assert(fib(22) == 17711 && fib(23) == 28657) by (nonlinear_arith)
        requires
            fib(22) == fib(11) * (2 * fib(12) - fib(11)),
            fib(23) == fib(11) * fib(11) + fib(12) * fib(12),
            fib(11) == 89,
            fib(12) == 144,
    ;
    assert(fib(24) == 46368);
    lemma_fib_double(23);
    assert(fib(46) == 1836311903 && fib(47) == 2971215073) by (nonlinear_arith)
        requires
            fib(46) == fib(23) * (2 * fib(24) - fib(23)),
            fib(47) == fib(23) * fib(23) + fib(24) * fib(24),
            fib(23) == 28657,
            fib(24) == 46368,
    ;
    lemma_fib_double(46);
    assert(fib(92) == 7540113804746346429 && fib(93) == 12200160415121876738) by (nonlinear_arith)
        requires
            fib(92) == fib(46) * (2 * fib(47) - fib(46)),
            fib(93) == fib(46) * fib(46) + fib(47) * fib(47),
            fib(46) == 1836311903,
            fib(47) == 2971215073,
    ;
    assert(fib(94) == 19740274219868223167);
    lemma_fib_double(93);
    assert(fib(186) == 332825110087067562321196029789634457848) by (nonlinear_arith)
        requires
            fib(186) == fib(93) * (2 * fib(94) - fib(93)),
            fib(93) == 12200160415121876738,
            fib(94) == 19740274219868223167,
    ;
}

/// The `n`-th Fibonacci number, by fast doubling.
///
/// `F(186)` is the largest Fibonacci number that fits in `u128`; the doubling
/// loop also holds `F(n + 1)`, so orders up to 185 are accepted.
pub fn fibonacci(n: u32) -> (r: u128)
    requires
        n <= 185,
    ensures
        r == fib(n as nat),
{
    if n <= 2 {
        proof {
            reveal_with_fuel(fib, 4);
        }
        if n == 0 {
            0
        } else {
            1
        }
    } else {
        proof {
            lemma_fib_186();
            lemma_fib_monotone((n + 1) as nat, 186);
        }
        // Find the largest power of two not exceeding n.
        proof {
            vstd::arithmetic::power2::lemma2_to64();
        }
        let mut m: u32 = 1;
        let ghost mut e: nat = 0;
        while m <= n / 2
            invariant
                n <= 185,
                m == pow2(e),
                1 <= m <= n,
            decreases n - m,
        {
            proof {
                lemma_pow2_unfold((e + 1) as nat);
            }
            m = m * 2;
            proof {
                e = e + 1;
            }
        }
        assert(n < 2 * m);
        assert(n / m == 1) by (nonlinear_arith)
            requires
                1 <= m <= n < 2 * m,
        ;
        // The pair (a, b) == (F(p), F(p + 1)) for the prefix p == n / m.
        let mut a: u128 = 1;
        let mut b: u128 = 1;
        assert(fib(1) == 1 && fib(2) == 1) by {
            reveal_with_fuel(fib, 3);
        }
        while m > 1
            invariant
                3 <= n <= 185,
                m == pow2(e),
                1 <= m <= n,
                1 <= n / m,
                a == fib((n / m) as nat),
                b == fib((n / m + 1) as nat),
                fib(186) <= u128::MAX,
                fib((n + 1) as nat) <= fib(186),
            decreases m,
        {
            proof {
                assert(e >= 1) by {
                    vstd::arithmetic::power2::lemma2_to64();
                }
                lemma_pow2_unfold(e);
                lemma_pow2_pos((e - 1) as nat);
                e = (e - 1) as nat;
            }
            let ghost p = (n / m) as nat;
            m = m / 2;
            let q = n / m;
            proof {
                lemma_div_denominator(n as int, m as int, 2);
                lemma_fundamental_div_mod(q as int, 2);
                assert(q == 2 * p + (q % 2));
                assert(q <= n) by (nonlinear_arith)
                    requires
                        m >= 1,
                        q == n as int / m as int,
                        n >= 0,
                ;
                lemma_fib_double(p);
                lemma_fib_monotone(2 * p + 1, (n + 1) as nat);
                lemma_fib_monotone(p + 2, (n + 1) as nat);
                lemma_fib_monotone(p, p + 1);
                // Every intermediate stays below F(n + 1): 2ab <= a^2 + b^2.
                assert(2 * (fib(p) * fib(p + 1)) <= fib(p) * fib(p) + fib(p + 1) * fib(p + 1))
                    by (nonlinear_arith);
                assert(fib(p) + fib(p + 1) == fib(p + 2));
                assert(fib(p) <= fib(p + 1) ==> fib(p) * fib(p) <= fib(p) * fib(p + 1))
                    by (nonlinear_arith);
                assert((fib(p) + fib(p)) * fib(p + 1) == 2 * (fib(p) * fib(p + 1)))
                    by (nonlinear_arith);
                assert(2 * (fib(p) * fib(p + 1)) - fib(p) * fib(p) == fib(p) * (2 * fib(p + 1)
                    - fib(p))) by (nonlinear_arith);
            }
            let t1 = a * a;
            let doubled = (a + a) * b - t1;
            let doubled_next = b * b + t1;
            if q % 2 == 1 {
                a = doubled_next;
                proof {
                    lemma_fib_monotone(2 * p + 2, (n + 1) as nat);
                }
                b = doubled + doubled_next;
            } else {
                a = doubled;
                b = doubled_next;
            }
        }
        assert(n / 1 == n as int);
        a
    }
}

} // verus!
