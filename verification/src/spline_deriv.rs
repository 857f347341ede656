//! Derivatives of cardinal B-splines over the rational model, and the
//! structural identities they satisfy.
//!
//! The first derivative of the order-0 box does not exist classically at the
//! two jump points; following the convention of the evaluator, it is modelled
//! there as a signed infinity, so derivative values live in `DerivVal`.

use crate::rational::Ratv;
use crate::rational::lemma_rat_add_cong;
use crate::rational::lemma_rat_eq_trans;
use crate::rational::lemma_rat_neg_cong;
use crate::rational::lemma_rat_outer_exchange;
use crate::rational::lemma_rat_sub_antisym;
use crate::rational::rat_abs;
use crate::rational::rat_add;
use crate::rational::rat_eq;
use crate::rational::rat_half;
use crate::rational::rat_int;
use crate::rational::rat_lt;
use crate::rational::rat_mul;
use crate::rational::rat_neg;
use crate::rational::rat_sub;
use crate::rational::rat_wf;
use crate::spline_model::b_at;
use crate::spline_model::box_at;
use crate::spline_model::lemma_b_at_even;
use crate::spline_model::lemma_b_at_wf;
use vstd::prelude::*;

verus! {

/// A derivative value: finite everywhere except at the jump points of the
/// order-0 box, where the one-sided derivatives disagree.
pub enum DerivVal {
    MinusInf,
    Fin(Ratv),
    PlusInf,
}

/// Equality of derivative values: finite parts are compared as rationals.
pub open spec fn deriv_eq(a: DerivVal, b: DerivVal) -> bool {
    match (a, b) {
        (DerivVal::MinusInf, DerivVal::MinusInf) => true,
        (DerivVal::PlusInf, DerivVal::PlusInf) => true,
        (DerivVal::Fin(u), DerivVal::Fin(v)) => rat_eq(u, v),
        _ => false,
    }
}

/// Negation of a derivative value.
pub open spec fn deriv_neg(a: DerivVal) -> DerivVal {
    match a {
        DerivVal::MinusInf => DerivVal::PlusInf,
        DerivVal::Fin(v) => DerivVal::Fin(rat_neg(v)),
        DerivVal::PlusInf => DerivVal::MinusInf,
    }
}

/// A derivative value is a well-formed fraction when finite.
pub open spec fn deriv_wf(a: DerivVal) -> bool {
    match a {
        DerivVal::Fin(v) => rat_wf(v),
        _ => true,
    }
}

/// The slope of the order-1 hat kernel: `0` at the apex and beyond the
/// support, `-sign(x)` strictly inside, and the average of the one-sided
/// slopes at the support boundary `x == +-1`.
pub open spec fn hat_slope_at(x: Ratv) -> Ratv {
    if rat_eq(x, rat_int(0)) {
        rat_int(0)
    } else if x.num > 0 {
        if rat_eq(x, rat_int(1)) {
            rat_neg(rat_half(1))
        } else if rat_lt(rat_int(1), x) {
            rat_int(0)
        } else {
            rat_int(-1)
        }
    } else {
        if rat_eq(x, rat_int(-1)) {
            rat_half(1)
        } else if rat_lt(x, rat_int(-1)) {
            rat_int(0)
        } else {
            rat_int(1)
        }
    }
}

/// The first derivative of the order-`n` cardinal B-spline at `x`.
///
/// For orders two and above it is the backward difference of the order-(n-1)
/// spline at half-integer offsets, `B_{n-1}(x + 1/2) - B_{n-1}(x - 1/2)`.
pub open spec fn b_prime_at(n: nat, x: Ratv) -> DerivVal {
    if n == 0 {
        if rat_eq(x, rat_half(1)) {
            DerivVal::PlusInf
        } else if rat_eq(x, rat_neg(rat_half(1))) {
            DerivVal::MinusInf
        } else {
            DerivVal::Fin(rat_int(0))
        }
    } else if n == 1 {
        DerivVal::Fin(hat_slope_at(x))
    } else {
        DerivVal::Fin(
            rat_sub(
                b_at((n - 1) as nat, rat_add(x, rat_half(1))),
                b_at((n - 1) as nat, rat_sub(x, rat_half(1))),
            ),
        )
    }
}

/// The second derivative of the order-`n` cardinal B-spline at `x`, as the
/// second-order central difference of the order-(n-2) spline:
/// `B_{n-2}(x + 1) - 2 * B_{n-2}(x) + B_{n-2}(x - 1)`. Meaningful for `n >= 3`.
pub open spec fn b_second_at(n: nat, x: Ratv) -> Ratv {
    rat_add(
        rat_sub(
            b_at((n - 2) as nat, rat_add(x, rat_int(1))),
            rat_mul(rat_int(2), b_at((n - 2) as nat, x)),
        ),
        b_at((n - 2) as nat, rat_sub(x, rat_int(1))),
    )
}

/// Oddness of the first derivative: `B'_n(-x) == -B'_n(x)`, exactly.
pub proof fn lemma_b_prime_odd(n: nat, x: Ratv)
    requires
        rat_wf(x),
    ensures
        deriv_eq(b_prime_at(n, rat_neg(x)), deriv_neg(b_prime_at(n, x))),
{
    let y = rat_neg(x);
    if n == 0 {
        assert(rat_eq(y, rat_half(1)) <==> rat_eq(x, rat_neg(rat_half(1)))) by (nonlinear_arith)
            requires
                y == rat_neg(x),
        ;
        assert(rat_eq(y, rat_neg(rat_half(1))) <==> rat_eq(x, rat_half(1))) by (nonlinear_arith)
            requires
                y == rat_neg(x),
        ;
    } else if n == 1 {
        assert(rat_eq(y, rat_int(0)) <==> rat_eq(x, rat_int(0))) by (nonlinear_arith)
            requires
                y == rat_neg(x),
        ;
        assert(rat_eq(y, rat_int(1)) <==> rat_eq(x, rat_int(-1))) by (nonlinear_arith)
            requires
                y == rat_neg(x),
        ;
        assert(rat_eq(y, rat_int(-1)) <==> rat_eq(x, rat_int(1))) by (nonlinear_arith)
            requires
                y == rat_neg(x),
        ;
        assert(rat_lt(rat_int(1), y) <==> rat_lt(x, rat_int(-1))) by (nonlinear_arith)
            requires
                y == rat_neg(x),
        ;
        assert(rat_lt(y, rat_int(-1)) <==> rat_lt(rat_int(1), x)) by (nonlinear_arith)
            requires
                y == rat_neg(x),
        ;
        if rat_eq(x, rat_int(0)) {
            assert(x.num == 0 && y.num == 0) by (nonlinear_arith)
                requires
                    y == rat_neg(x),
                    x.den >= 1,
                    rat_eq(x, rat_int(0)),
            ;
        } else if x.num > 0 {
            assert(y.num < 0);
        } else {
            assert(x.num < 0 && y.num > 0) by (nonlinear_arith)
                requires
                    y == rat_neg(x),
                    x.den >= 1,
                    !rat_eq(x, rat_int(0)),
                    !(x.num > 0),
            ;
        }
    } else {
        let m = (n - 1) as nat;
        let xp = rat_add(x, rat_half(1));
        let xm = rat_sub(x, rat_half(1));
        assert(rat_add(y, rat_half(1)) == rat_neg(xm));
        assert(rat_sub(y, rat_half(1)) == rat_neg(xp));
        lemma_b_at_even(m, xp);
        lemma_b_at_even(m, xm);
        lemma_b_at_wf(m, xp);
        lemma_b_at_wf(m, xm);
        lemma_b_at_wf(m, rat_neg(xp));
        lemma_b_at_wf(m, rat_neg(xm));
        let a = b_at(m, rat_neg(xm));
        let b = b_at(m, rat_neg(xp));
        let a2 = b_at(m, xm);
        let b2 = b_at(m, xp);
        // B'_n(-x) == B_{n-1}(-x + 1/2) - B_{n-1}(-x - 1/2) == a - b
        lemma_rat_neg_cong(b, b2);
        lemma_rat_add_cong(a, a2, rat_neg(b), rat_neg(b2));
        lemma_rat_sub_antisym(a2, b2);
        assert(rat_wf(rat_sub(a, b)) && rat_wf(rat_sub(a2, b2)) && rat_wf(
            rat_neg(rat_sub(b2, a2)),
        )) by (nonlinear_arith)
            requires
                a.den >= 1 && b.den >= 1 && a2.den >= 1 && b2.den >= 1,
                rat_sub(a, b).den == a.den * b.den,
                rat_sub(a2, b2).den == a2.den * b2.den,
                rat_neg(rat_sub(b2, a2)).den == b2.den * a2.den,
        ;
        lemma_rat_eq_trans(rat_sub(a, b), rat_sub(a2, b2), rat_neg(rat_sub(b2, a2)));
    }
}

/// Evenness of the second derivative: `B''_n(-x) == B''_n(x)`, exactly.
pub proof fn lemma_b_second_even(n: nat, x: Ratv)
    requires
        rat_wf(x),
        n >= 2,
    ensures
        rat_eq(b_second_at(n, rat_neg(x)), b_second_at(n, x)),
{
    let y = rat_neg(x);
    let m = (n - 2) as nat;
    let xp = rat_add(x, rat_int(1));
    let xm = rat_sub(x, rat_int(1));
    assert(rat_add(y, rat_int(1)).num == rat_neg(xm).num && rat_add(y, rat_int(1)).den == rat_neg(
        xm,
    ).den) by (nonlinear_arith)
        requires
            y == rat_neg(x),
            xm == rat_sub(x, rat_int(1)),
    ;
    assert(rat_add(y, rat_int(1)) == rat_neg(xm));
    assert(rat_sub(y, rat_int(1)).num == rat_neg(xp).num && rat_sub(y, rat_int(1)).den == rat_neg(
        xp,
    ).den) by (nonlinear_arith)
        requires
            y == rat_neg(x),
            xp == rat_add(x, rat_int(1)),
    ;
    assert(rat_sub(y, rat_int(1)) == rat_neg(xp));
    lemma_b_at_even(m, xp);
    lemma_b_at_even(m, xm);
    lemma_b_at_even(m, x);
    lemma_b_at_wf(m, xp);
    lemma_b_at_wf(m, xm);
    lemma_b_at_wf(m, x);
    lemma_b_at_wf(m, rat_neg(xp));
    lemma_b_at_wf(m, rat_neg(xm));
    lemma_b_at_wf(m, y);
    let a = b_at(m, rat_neg(xm));
    let c = b_at(m, rat_neg(xp));
    let mid = rat_mul(rat_int(2), b_at(m, y));
    let a2 = b_at(m, xm);
    let c2 = b_at(m, xp);
    let mid2 = rat_mul(rat_int(2), b_at(m, x));
    assert(rat_wf(mid) && rat_wf(mid2) && rat_wf(rat_sub(a, mid)) && rat_wf(rat_sub(a2, mid2))
        && rat_wf(rat_add(rat_sub(a, mid), c)) && rat_wf(rat_add(rat_sub(a2, mid2), c2)) && rat_wf(
        rat_add(rat_sub(c2, mid2), a2),
    )) by (nonlinear_arith)
        requires
            a.den >= 1 && c.den >= 1 && a2.den >= 1 && c2.den >= 1,
            b_at(m, y).den >= 1 && b_at(m, x).den >= 1,
            mid == rat_mul(rat_int(2), b_at(m, y)),
            mid2 == rat_mul(rat_int(2), b_at(m, x)),
            rat_sub(a, mid).den == a.den * mid.den,
            rat_sub(a2, mid2).den == a2.den * mid2.den,
            rat_add(rat_sub(a, mid), c).den == rat_sub(a, mid).den * c.den,
            rat_add(rat_sub(a2, mid2), c2).den == rat_sub(a2, mid2).den * c2.den,
            rat_add(rat_sub(c2, mid2), a2).den == (c2.den * mid2.den) * a2.den,
    ;
    crate::rational::lemma_rat_mul_cong(rat_int(2), rat_int(2), b_at(m, y), b_at(m, x));
    lemma_rat_neg_cong(mid, mid2);
    lemma_rat_add_cong(a, a2, rat_neg(mid), rat_neg(mid2));
    lemma_rat_add_cong(rat_sub(a, mid), rat_sub(a2, mid2), c, c2);
    lemma_rat_outer_exchange(a2, mid2, c2);
    lemma_rat_eq_trans(
        rat_add(rat_sub(a, mid), c),
        rat_add(rat_sub(a2, mid2), c2),
        rat_add(rat_sub(c2, mid2), a2),
    );
}

/// The derivative recurrence: for `n >= 1`,
/// `B'_n(x) == B_{n-1}(x + 1/2) - B_{n-1}(x - 1/2)`, exactly.
pub proof fn lemma_derivative_recurrence(n: nat, x: Ratv)
    requires
        rat_wf(x),
        n >= 1,
    ensures
        deriv_eq(
            b_prime_at(n, x),
            DerivVal::Fin(
                rat_sub(
                    b_at((n - 1) as nat, rat_add(x, rat_half(1))),
                    b_at((n - 1) as nat, rat_sub(x, rat_half(1))),
                ),
            ),
        ),
{
    if n == 1 {
        let xp = rat_add(x, rat_half(1));
        let xm = rat_sub(x, rat_half(1));
        let bp = box_at(xp);
        let bm = box_at(xm);
        assert(b_at(0, xp) == bp && b_at(0, xm) == bm);
        let s = hat_slope_at(x);
        let d = rat_sub(bp, bm);
        if rat_eq(x, rat_int(0)) {
            assert(x.num == 0);
            assert(bp == rat_half(1) && bm == rat_half(1));
            assert(rat_eq(s, d)) by (nonlinear_arith)
                requires
                    x.den >= 1,
                    s.num == 0,
                    d.num == 1 * 2 + (-1) * 2,
                    d.den == 2 * 2,
        ;
        } else if x.num > 0 {
            if rat_eq(x, rat_int(1)) {
                assert(x.num == x.den);
                assert(bp == rat_int(0) && bm == rat_half(1));
                assert(rat_eq(s, d)) by (nonlinear_arith)
                    requires
                        s.num == -1 && s.den == 2,
                        d.num == 0 * 2 + (-1) * 1,
                        d.den == 1 * 2,
                ;
            } else if rat_lt(rat_int(1), x) {
                assert(x.num > x.den);
                assert(bp == rat_int(0) && bm == rat_int(0)) by (nonlinear_arith)
                    requires
                        x.den >= 1,
                        x.num > x.den,
                        bp == crate::spline_model::box_at(xp),
                        bm == crate::spline_model::box_at(xm),
                        xp.num == x.num * 2 + 1 * x.den && xp.den == x.den * 2,
                        xm.num == x.num * 2 + (-1) * x.den && xm.den == 2 * x.den,
                        rat_abs(xp).num == (if xp.num < 0 {
                            -xp.num
                        } else {
                            xp.num
                        }) && rat_abs(xp).den == xp.den,
                        rat_abs(xm).num == (if xm.num < 0 {
                            -xm.num
                        } else {
                            xm.num
                        }) && rat_abs(xm).den == xm.den,
                        bp == (if rat_lt(rat_abs(xp), rat_half(1)) {
                            rat_int(1)
                        } else if rat_eq(rat_abs(xp), rat_half(1)) {
                            rat_half(1)
                        } else {
                            rat_int(0)
                        }),
                        bm == (if rat_lt(rat_abs(xm), rat_half(1)) {
                            rat_int(1)
                        } else if rat_eq(rat_abs(xm), rat_half(1)) {
                            rat_half(1)
                        } else {
                            rat_int(0)
                        }),
                ;
                assert(rat_eq(s, d)) by (nonlinear_arith)
                    requires
                        s.num == 0 && s.den == 1,
                        d.num == 0 * 1 + (-0) * 1,
                        d.den == 1 * 1,
                ;
            } else {
                assert(x.num < x.den);
                assert(bp == rat_int(0) && bm == rat_int(1));
                assert(rat_eq(s, d)) by (nonlinear_arith)
                    requires
                        s.num == -1 && s.den == 1,
                        d.num == 0 * 1 + (-1) * 1,
                        d.den == 1 * 1,
                ;
            }
        } else {
            assert(x.num < 0);
            if rat_eq(x, rat_int(-1)) {
                assert(x.num == -x.den);
                assert(bp == rat_half(1) && bm == rat_int(0));
                assert(rat_eq(s, d)) by (nonlinear_arith)
                    requires
                        s.num == 1 && s.den == 2,
                        d.num == 1 * 1 + 0 * 2,
                        d.den == 2 * 1,
                ;
            } else if rat_lt(x, rat_int(-1)) {
                assert(x.num < -x.den);
                assert(bp == rat_int(0) && bm == rat_int(0)) by (nonlinear_arith)
                    requires
                        x.den >= 1,
                        x.num < -x.den,
                        bp == crate::spline_model::box_at(xp),
                        bm == crate::spline_model::box_at(xm),
                        xp.num == x.num * 2 + 1 * x.den && xp.den == x.den * 2,
                        xm.num == x.num * 2 + (-1) * x.den && xm.den == 2 * x.den,
                        rat_abs(xp).num == (if xp.num < 0 {
                            -xp.num
                        } else {
                            xp.num
                        }) && rat_abs(xp).den == xp.den,
                        rat_abs(xm).num == (if xm.num < 0 {
                            -xm.num
                        } else {
                            xm.num
                        }) && rat_abs(xm).den == xm.den,
                        bp == (if rat_lt(rat_abs(xp), rat_half(1)) {
                            rat_int(1)
                        } else if rat_eq(rat_abs(xp), rat_half(1)) {
                            rat_half(1)
                        } else {
                            rat_int(0)
                        }),
                        bm == (if rat_lt(rat_abs(xm), rat_half(1)) {
                            rat_int(1)
                        } else if rat_eq(rat_abs(xm), rat_half(1)) {
                            rat_half(1)
                        } else {
                            rat_int(0)
                        }),
                ;
                assert(rat_eq(s, d)) by (nonlinear_arith)
                    requires
                        s.num == 0 && s.den == 1,
                        d.num == 0 * 1 + (-0) * 1,
                        d.den == 1 * 1,
                ;
            } else {
                assert(-x.den < x.num);
                assert(bp == rat_int(1) && bm == rat_int(0));
                assert(rat_eq(s, d)) by (nonlinear_arith)
                    requires
                        s.num == 1 && s.den == 1,
                        d.num == 1 * 1 + 0 * 1,
                        d.den == 1 * 1,
                ;
            }
        }
    }
}

/// The second-derivative recurrence: for `n >= 3`,
/// `B''_n(x) == B_{n-2}(x + 1) - 2 * B_{n-2}(x) + B_{n-2}(x - 1)`, exactly.
pub proof fn lemma_second_derivative_recurrence(n: nat, x: Ratv)
    requires
        rat_wf(x),
        n >= 3,
    ensures
        rat_eq(
            b_second_at(n, x),
            rat_add(
                rat_sub(
                    b_at((n - 2) as nat, rat_add(x, rat_int(1))),
                    rat_mul(rat_int(2), b_at((n - 2) as nat, x)),
                ),
                b_at((n - 2) as nat, rat_sub(x, rat_int(1))),
            ),
        ),
{
}

} // verus!
