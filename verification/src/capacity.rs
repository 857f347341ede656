//! Capacity accounting for the triangular recurrence evaluator.
//!
//! The evaluator works on integer numerators over a common denominator. Both
//! grow by a factor of at most `2q * 2(n+1)` per fold pass, where `q` is the
//! denominator of the evaluation point; `stage_cap` is that worst-case bound,
//! and an order-`n` evaluation is performed exactly when the bound for its
//! final stage fits in `i128` (`fits`). The check itself, `fits_check`, runs
//! the same product with a division guard against overflow.

use vstd::arithmetic::div_mod::lemma_fundamental_div_mod;
use vstd::prelude::*;

verus! {

/// The common denominator of the working buffer at stage `j`: the buffer is
/// filled at stage 1 over `2q`, and pass `j` multiplies it by `2q * j`.
pub open spec fn stage_den(q: int, j: nat) -> int
    decreases j,
{
    if j <= 1 {
        2 * q
    } else {
        stage_den(q, (j - 1) as nat) * (2 * q) * (j as int)
    }
}

/// Worst-case bound on the numerators and the denominator at stage `j` of an
/// order-`n` evaluation: each pass multiplies magnitudes by at most
/// `2q * 2(n+1)`.
pub open spec fn stage_cap(q: int, n: nat, j: nat) -> int
    decreases j,
{
    if j <= 1 {
        2 * q
    } else {
        stage_cap(q, n, (j - 1) as nat) * (2 * q) * (2 * (n + 1))
    }
}

/// An order-`n` evaluation at a point with denominator `q` stays within
/// `i128` exactly when the final stage bound does.
pub open spec fn fits(n: nat, q: int) -> bool {
    stage_cap(q, n, n) <= i128::MAX
}

/// Stage caps are at least 2.
pub proof fn lemma_stage_cap_pos(q: int, n: nat, j: nat)
    requires
        q >= 1,
    ensures
        2 <= stage_cap(q, n, j),
    decreases j,
{
    if j > 1 {
        lemma_stage_cap_pos(q, n, (j - 1) as nat);
        let c = stage_cap(q, n, (j - 1) as nat);
        assert(2 <= c * (2 * q) * (2 * (n + 1))) by (nonlinear_arith)
            requires
                q >= 1,
                c >= 2,
        ;
    }
}

/// The stage cap grows with the stage.
pub proof fn lemma_stage_cap_monotone(q: int, n: nat, j1: nat, j2: nat)
    requires
        q >= 1,
        j1 <= j2,
    ensures
        stage_cap(q, n, j1) <= stage_cap(q, n, j2),
    decreases j2,
{
    if j1 < j2 {
        lemma_stage_cap_monotone(q, n, j1, (j2 - 1) as nat);
        lemma_stage_cap_pos(q, n, (j2 - 1) as nat);
        let c = stage_cap(q, n, (j2 - 1) as nat);
        assert(c <= c * (2 * q) * (2 * (n + 1))) by (nonlinear_arith)
            requires
                q >= 1,
                c >= 2,
        ;
    }
}

/// A multiplication guard: for positive values, `a * f` stays within `cap`
/// exactly when `a <= cap / f`.
pub proof fn lemma_div_guard(a: int, f: int, cap: int)
    requires
        a >= 1,
        f >= 1,
        cap >= 1,
    ensures
        a <= cap / f ==> a * f <= cap,
        a > cap / f ==> a * f > cap,
{
    lemma_fundamental_div_mod(cap, f);
    assert(a <= cap / f ==> a * f <= cap) by (nonlinear_arith)
        requires
            a >= 1,
            f >= 1,
            cap == f * (cap / f) + cap % f,
            0 <= cap % f < f,
    ;
    assert(a > cap / f ==> a * f > cap) by (nonlinear_arith)
        requires
            a >= 1,
            f >= 1,
            cap == f * (cap / f) + cap % f,
            0 <= cap % f < f,
    ;
}

/// A fitting order-2 stage leaves room for the coefficient arithmetic.
pub proof fn lemma_fits_room(n: nat, q: int)
    requires
        n >= 2,
        q >= 1,
        fits(n, q),
    ensures
        8 * (q * q) * (n + 1) <= i128::MAX,
        2 * q <= i128::MAX,
{
    lemma_stage_cap_monotone(q, n, 2, n);
    assert(stage_cap(q, n, 2) == (2 * q) * (2 * q) * (2 * (n + 1))) by {
        reveal_with_fuel(stage_cap, 2);
    }
    assert((2 * q) * (2 * q) * (2 * (n + 1)) == 8 * (q * q) * (n + 1) && 2 * q <= 8 * (q * q) * (n
        + 1)) by (nonlinear_arith)
        requires
            q >= 1,
            n >= 2,
    ;
}

/// Decides whether an order-`n` evaluation at denominator `q` fits in `i128`,
/// by running the stage-cap product behind a division guard.
pub fn fits_check(n: u32, q: i128) -> (b: bool)
    requires
        n >= 2,
        q >= 1,
    ensures
        b == fits(n as nat, q as int),
{
    let max: i128 = i128::MAX;
    if q > max / 2 {
        proof {
            lemma_div_guard(q as int, 2, max as int);
            assert(stage_cap(q as int, n as nat, 1) == 2 * q);
            lemma_stage_cap_monotone(q as int, n as nat, 1, n as nat);
        }
        return false;
    }
    proof {
        lemma_div_guard(q as int, 2, max as int);
    }
    let twoq: i128 = 2 * q;
    let factor: i128 = 2 * (n as i128 + 1);
    let mut acc: i128 = twoq;
    let mut j: u64 = 2;
    while j <= n as u64
        invariant
            n >= 2,
            q >= 1,
            max == i128::MAX,
            twoq == 2 * q,
            factor == 2 * (n + 1),
            2 <= j <= n + 1,
            acc == stage_cap(q as int, n as nat, (j - 1) as nat),
            2 <= acc,
        decreases n + 1 - j,
    {
        proof {
            lemma_stage_cap_monotone(q as int, n as nat, j as nat, n as nat);
            lemma_div_guard(acc as int, twoq as int, max as int);
        }
        if acc > max / twoq {
            proof {
                assert(stage_cap(q as int, n as nat, j as nat) > max) by (nonlinear_arith)
                    requires
                        acc * twoq > max,
                        stage_cap(q as int, n as nat, j as nat) == acc * twoq * (2 * (n + 1)),
                        acc >= 1,
                        twoq >= 2,
                        n >= 2,
                ;
            }
            return false;
        }
        let acc2 = acc * twoq;
        proof {
            assert(acc2 >= 2) by (nonlinear_arith)
                requires
                    acc2 == acc * twoq,
                    acc >= 2,
                    twoq >= 2,
            ;
            lemma_div_guard(acc2 as int, factor as int, max as int);
        }
        if acc2 > max / factor {
            proof {
                assert(stage_cap(q as int, n as nat, j as nat) > max) by (nonlinear_arith)
                    requires
                        acc2 * factor > max,
                        stage_cap(q as int, n as nat, j as nat) == acc2 * factor,
                ;
            }
            return false;
        }
        let acc3 = acc2 * factor;
        proof {
            assert(acc3 >= 2) by (nonlinear_arith)
                requires
                    acc3 == acc2 * factor,
                    acc2 >= 2,
                    factor >= 2,
            ;
            assert(acc3 == stage_cap(q as int, n as nat, j as nat)) by (nonlinear_arith)
                requires
                    acc3 == acc2 * factor,
                    acc2 == acc * twoq,
                    twoq == 2 * (q as int),
                    factor == 2 * ((n as int) + 1),
                    stage_cap(q as int, n as nat, j as nat) == stage_cap(
                        q as int,
                        n as nat,
                        (j - 1) as nat,
                    ) * (2 * (q as int)) * (2 * ((n as int) + 1)),
                    acc == stage_cap(q as int, n as nat, (j - 1) as nat),
            ;
        }
        acc = acc3;
        j = j + 1;
    }
    proof {
        lemma_stage_cap_monotone(q as int, n as nat, (j - 1) as nat, n as nat);
        assert((j - 1) as nat == n as nat);
    }
    true
}

} // verus!
