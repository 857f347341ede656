//! Partition of unity.
//!
//! The integer translates of a cardinal B-spline sum to one. Over the exact
//! rational model this holds with equality, midpoint convention included, and
//! is proved here for every order: the box case in closed form, and each
//! higher order by telescoping one pass of the Cox-de Boor recurrence into
//! the translate sum of the order below.

use crate::rational::Ratv;
use crate::rational::lemma_rat_add_assoc;
use crate::rational::lemma_rat_add_cong;
use crate::rational::lemma_rat_add_swap;
use crate::rational::lemma_rat_add_zero;
use crate::rational::lemma_rat_cancel_to_one;
use crate::rational::lemma_rat_coeff_combine;
use crate::rational::lemma_rat_eq_sym;
use crate::rational::lemma_rat_eq_trans;
use crate::rational::lemma_rat_int_mul_add;
use crate::rational::lemma_rat_mul_cong;
use crate::rational::lemma_rat_mul_div_cancel;
use crate::rational::lemma_rat_mul_zero;
use crate::rational::lemma_rat_scale_simple;
use crate::rational::lemma_rat_wf_add;
use crate::rational::lemma_rat_wf_mul;
use crate::rational::lemma_rat_zero_add;
use crate::rational::rat_abs;
use crate::rational::rat_add;
use crate::rational::rat_eq;
use crate::rational::rat_half;
use crate::rational::rat_int;
use crate::rational::rat_le;
use crate::rational::rat_lt;
use crate::rational::rat_wf;
use crate::rational::rat_mul;
use crate::rational::rat_div_int;
use crate::rational::rat_sub;
use crate::spline_model::b_at;
use crate::spline_model::box_at;
use crate::spline_model::lemma_b_at_wf;
use crate::spline_model::lemma_compact_support;
use vstd::prelude::*;

verus! {

/// The sum of the first `k` integer translates of the order-`n` spline
/// starting at `x0`.
pub open spec fn b_translates(n: nat, x0: Ratv, k: nat) -> Ratv
    decreases k,
{
    if k == 0 {
        rat_int(0)
    } else {
        rat_add(
            b_translates(n, x0, (k - 1) as nat),
            b_at(n, rat_add(x0, rat_int(k - 1))),
        )
    }
}

/// Partition of unity for the order-0 box: for any starting offset in
/// `[-1/2, 1/2)`, the two translates that can meet its support sum to `1`,
/// exactly; at the offset `-1/2` the two midpoint halves combine.
pub proof fn lemma_partition_of_unity_box(x0: Ratv)
    requires
        rat_wf(x0),
        rat_le(rat_half(-1), x0),
        rat_lt(x0, rat_half(1)),
    ensures
        rat_eq(b_translates(0, x0, 2), rat_int(1)),
{
    let b0 = b_at(0, rat_add(x0, rat_int(0)));
    let b1 = b_at(0, rat_add(x0, rat_int(1)));
    let s = b_translates(0, x0, 2);
    assert(s == rat_add(rat_add(rat_int(0), b0), b1)) by {
        reveal_with_fuel(b_translates, 3);
    }
    if rat_eq(x0, rat_half(-1)) {
        assert(b0 == rat_half(1) && b1 == rat_half(1)) by (nonlinear_arith)
            requires
                x0.den >= 1,
                2 * x0.num == -x0.den,
                b0 == box_at(rat_add(x0, rat_int(0))),
                b1 == box_at(rat_add(x0, rat_int(1))),
                rat_add(x0, rat_int(0)) == (Ratv { num: x0.num * 1 + 0 * x0.den, den: x0.den * 1 }),
                rat_add(x0, rat_int(1)) == (Ratv { num: x0.num * 1 + 1 * x0.den, den: x0.den * 1 }),
        ;
    } else {
        assert(b0 == rat_int(1) && b1 == rat_int(0)) by (nonlinear_arith)
            requires
                x0.den >= 1,
                -x0.den <= 2 * x0.num,
                2 * x0.num != -x0.den,
                2 * x0.num < x0.den,
                b0 == box_at(rat_add(x0, rat_int(0))),
                b1 == box_at(rat_add(x0, rat_int(1))),
                rat_add(x0, rat_int(0)) == (Ratv { num: x0.num * 1 + 0 * x0.den, den: x0.den * 1 }),
                rat_add(x0, rat_int(1)) == (Ratv { num: x0.num * 1 + 1 * x0.den, den: x0.den * 1 }),
        ;
    }
    assert(rat_eq(s, rat_int(1))) by (nonlinear_arith)
        requires
            s == rat_add(rat_add(rat_int(0), b0), b1),
            (b0 == rat_half(1) && b1 == rat_half(1)) || (b0 == rat_int(1) && b1 == rat_int(0)),
    ;
}


/// Translate sums are well-formed fractions.
proof fn lemma_b_translates_wf(n: nat, x0: Ratv, k: nat)
    requires
        rat_wf(x0),
    ensures
        rat_wf(b_translates(n, x0, k)),
    decreases k,
{
    if k > 0 {
        lemma_b_translates_wf(n, x0, (k - 1) as nat);
        assert(rat_wf(rat_add(x0, rat_int(k - 1)))) by (nonlinear_arith)
            requires
                x0.den >= 1,
                rat_add(x0, rat_int(k - 1)).den == x0.den * 1,
        ;
        lemma_b_at_wf(n, rat_add(x0, rat_int(k - 1)));
        lemma_rat_wf_add(b_translates(n, x0, (k - 1) as nat), b_at(n, rat_add(x0, rat_int(k - 1))));
    }
}

/// The left blending coefficient `x0 + k + (n+1)/2` of the term that pass `n`
/// attaches to translate `k`, over the denominator `2 * x0.den`.
pub open spec fn acoeff(x0: Ratv, n: nat, k: int) -> Ratv {
    Ratv { num: 2 * x0.num + (2 * k + n + 1) * x0.den, den: 2 * x0.den }
}

/// One pass of the recurrence telescopes into the translate sum one order
/// below: `n * sum_{i<jj} B_n(x0+i)` equals `n * sum_{i<jj-1} B_{n-1}(y0+i)`
/// plus the leading boundary term at `y0 + (jj-1)`, where `y0 = x0 + 1/2`.
proof fn lemma_partition_step(n: nat, x0: Ratv, jj: nat)
    requires
        n >= 1,
        rat_wf(x0),
        rat_lt(x0, rat_half(1 - n as int)),
        1 <= jj,
    ensures
        rat_eq(
            rat_mul(rat_int(n as int), b_translates(n, x0, jj)),
            rat_add(
                rat_mul(
                    rat_int(n as int),
                    b_translates((n - 1) as nat, rat_add(x0, rat_half(1)), (jj - 1) as nat),
                ),
                rat_mul(
                    acoeff(x0, n, jj - 1),
                    b_at((n - 1) as nat, rat_add(rat_add(x0, rat_half(1)), rat_int(jj - 1))),
                ),
            ),
        ),
    decreases jj,
{
    let m = (n - 1) as nat;
    let y0 = rat_add(x0, rat_half(1));
    let nr = rat_int(n as int);
    let zj = rat_add(x0, rat_int(jj - 1));
    let c1 = rat_add(zj, rat_half(n + 1 as int));
    let c2 = rat_sub(rat_half(n + 1 as int), zj);
    let argp = rat_add(zj, rat_half(1));
    let argm = rat_sub(zj, rat_half(1));
    let bp = b_at(m, argp);
    let bm = b_at(m, argm);
    assert(b_at(n, zj) == rat_div_int(rat_add(rat_mul(c1, bp), rat_mul(c2, bm)), n as int));
    assert(rat_wf(zj) && rat_wf(c1) && rat_wf(c2) && rat_wf(y0) && rat_wf(argp) && rat_wf(argm)
        && rat_wf(acoeff(x0, n, jj - 1)) && rat_wf(rat_add(y0, rat_int(jj - 1))))
        by (nonlinear_arith)
        requires
            x0.den >= 1,
            zj.den == x0.den * 1,
            c1.den == zj.den * 2,
            c2.den == 2 * zj.den,
            y0.den == x0.den * 2,
            argp.den == zj.den * 2,
            argm.den == zj.den * 2,
            acoeff(x0, n, jj - 1).den == 2 * x0.den,
            rat_add(y0, rat_int(jj - 1)).den == y0.den * 1,
    ;
    lemma_b_at_wf(m, argp);
    lemma_b_at_wf(m, argm);
    lemma_b_at_wf(n, zj);
    lemma_b_translates_wf(n, x0, jj);
    lemma_b_translates_wf(m, y0, (jj - 1) as nat);
    // The recurrence coefficients and arguments, renamed to the y0 frame.
    assert(argp.num == rat_add(y0, rat_int(jj - 1)).num && argp.den == rat_add(
        y0,
        rat_int(jj - 1),
    ).den) by (nonlinear_arith)
        requires
            zj.num == x0.num * 1 + (jj - 1) * x0.den,
            zj.den == x0.den * 1,
            y0.num == x0.num * 2 + 1 * x0.den,
            y0.den == x0.den * 2,
            argp.num == zj.num * 2 + 1 * zj.den,
            argp.den == zj.den * 2,
            rat_add(y0, rat_int(jj - 1)).num == y0.num * 1 + (jj - 1) * y0.den,
            rat_add(y0, rat_int(jj - 1)).den == y0.den * 1,
    ;
    assert(argp == rat_add(y0, rat_int(jj - 1)));
    assert(c1.num == acoeff(x0, n, jj - 1).num && c1.den == acoeff(x0, n, jj - 1).den)
        by (nonlinear_arith)
        requires
            zj.num == x0.num * 1 + (jj - 1) * x0.den,
            zj.den == x0.den * 1,
            c1.num == zj.num * 2 + (n + 1) * zj.den,
            c1.den == zj.den * 2,
            acoeff(x0, n, jj - 1).num == 2 * x0.num + (2 * (jj - 1) + n + 1) * x0.den,
            acoeff(x0, n, jj - 1).den == 2 * x0.den,
    ;
    assert(c1 == acoeff(x0, n, jj - 1));
    lemma_rat_wf_mul(c1, bp);
    lemma_rat_wf_mul(c2, bm);
    lemma_rat_wf_add(rat_mul(c1, bp), rat_mul(c2, bm));
    let uv = rat_add(rat_mul(c1, bp), rat_mul(c2, bm));
    lemma_rat_mul_div_cancel(uv, n as int);
    lemma_rat_wf_mul(nr, b_at(n, zj));
    if jj == 1 {
        // The right argument x0 - 1/2 lies strictly below the support.
        assert(rat_le(rat_half(m + 1 as int), rat_abs(argm)) && (m == 0 ==> !rat_eq(
            rat_abs(argm),
            rat_half(1),
        ))) by (nonlinear_arith)
            requires
                x0.den >= 1,
                n >= 1,
                m == n - 1,
                x0.num * 2 < (1 - n as int) * x0.den,
                zj.num == x0.num * 1 + (jj - 1) * x0.den,
                zj.den == x0.den * 1,
                jj == 1,
                argm.num == zj.num * 2 + (-1) * zj.den,
                argm.den == 2 * zj.den,
                rat_abs(argm).num == (if argm.num < 0 {
                    -argm.num
                } else {
                    argm.num
                }),
                rat_abs(argm).den == argm.den,
        ;
        lemma_compact_support(m, argm);
        lemma_rat_mul_zero(c2, bm);
        lemma_rat_add_zero(rat_mul(c1, bp), rat_mul(c2, bm));
        let s1 = b_translates(n, x0, 1);
        assert(s1 == rat_add(rat_int(0), b_at(n, zj))) by {
            reveal_with_fuel(b_translates, 2);
        }
        lemma_rat_zero_add(rat_int(0), b_at(n, zj));
        lemma_rat_mul_cong(nr, nr, s1, b_at(n, zj));
        // Left side: n * S_1 == c1 * bp, up to rational equality.
        lemma_rat_wf_mul(nr, s1);
        lemma_rat_eq_trans(rat_mul(nr, s1), rat_mul(nr, b_at(n, zj)), uv);
        lemma_rat_eq_trans(rat_mul(nr, s1), uv, rat_mul(c1, bp));
        // Right side: the empty sum contributes a zero-valued term.
        assert(b_translates(m, y0, 0) == rat_int(0));
        lemma_rat_mul_zero(nr, rat_int(0));
        lemma_rat_wf_mul(nr, rat_int(0));
        lemma_rat_zero_add(rat_mul(nr, rat_int(0)), rat_mul(c1, bp));
        let rhs = rat_add(rat_mul(nr, b_translates(m, y0, 0)), rat_mul(c1, bp));
        lemma_rat_wf_add(rat_mul(nr, rat_int(0)), rat_mul(c1, bp));
        lemma_rat_eq_sym(rhs, rat_mul(c1, bp));
        lemma_rat_eq_trans(rat_mul(nr, s1), rat_mul(c1, bp), rhs);
    } else {
        lemma_partition_step(n, x0, (jj - 1) as nat);
        let sp = b_translates(n, x0, (jj - 1) as nat);
        let tpp = b_translates(m, y0, (jj - 2) as nat);
        let tp = b_translates(m, y0, (jj - 1) as nat);
        let cpp = b_at(m, rat_add(y0, rat_int(jj - 2)));
        let app = acoeff(x0, n, jj - 2);
        assert(b_translates(n, x0, jj) == rat_add(sp, b_at(n, zj)));
        assert(tp == rat_add(tpp, cpp));
        // The right recurrence argument is the previous boundary knot.
        assert(argm.num == rat_add(y0, rat_int(jj - 2)).num && argm.den == rat_add(
            y0,
            rat_int(jj - 2),
        ).den) by (nonlinear_arith)
            requires
                jj >= 2,
                zj.num == x0.num * 1 + (jj - 1) * x0.den,
                zj.den == x0.den * 1,
                y0.num == x0.num * 2 + 1 * x0.den,
                y0.den == x0.den * 2,
                argm.num == zj.num * 2 + (-1) * zj.den,
                argm.den == 2 * zj.den,
                rat_add(y0, rat_int(jj - 2)).num == y0.num * 1 + (jj - 2) * y0.den,
                rat_add(y0, rat_int(jj - 2)).den == y0.den * 1,
        ;
        assert(argm == rat_add(y0, rat_int(jj - 2)));
        lemma_b_translates_wf(n, x0, (jj - 1) as nat);
        lemma_b_translates_wf(m, y0, (jj - 2) as nat);
        lemma_b_at_wf(m, rat_add(y0, rat_int(jj - 2)));
        assert(rat_wf(app) && rat_wf(rat_add(y0, rat_int(jj - 2)))) by (nonlinear_arith)
            requires
                x0.den >= 1,
                app.den == 2 * x0.den,
                y0.den == x0.den * 2,
                rat_add(y0, rat_int(jj - 2)).den == y0.den * 1,
        ;
        // n * S_jj distributes over the last translate.
        lemma_rat_int_mul_add(n as int, sp, b_at(n, zj));
        let a = rat_mul(nr, tpp);
        let b = rat_mul(app, cpp);
        let c = rat_mul(c1, bp);
        let d = rat_mul(c2, bm);
        lemma_rat_wf_mul(nr, tpp);
        lemma_rat_wf_mul(app, cpp);
        lemma_rat_wf_mul(c2, bm);
        lemma_rat_wf_mul(nr, sp);
        lemma_rat_wf_add(a, b);
        lemma_rat_wf_add(c, d);
        // combined == (a + b) + (c + d), by the induction hypothesis and the
        // unfolded recurrence.
        lemma_rat_add_cong(rat_mul(nr, sp), rat_add(a, b), rat_mul(nr, b_at(n, zj)), uv);
        let combined = rat_add(rat_add(a, b), rat_add(c, d));
        lemma_rat_wf_mul(nr, b_translates(n, x0, jj));
        lemma_rat_wf_add(rat_mul(nr, sp), rat_mul(nr, b_at(n, zj)));
        lemma_rat_wf_add(rat_add(a, b), rat_add(c, d));
        lemma_rat_eq_trans(
            rat_mul(nr, b_translates(n, x0, jj)),
            rat_add(rat_mul(nr, sp), rat_mul(nr, b_at(n, zj))),
            combined,
        );
        // Regroup: (a + b) + (c + d) == (a + (b + d)) + c, on representations.
        lemma_rat_add_swap(c, d);
        lemma_rat_add_assoc(rat_add(a, b), d, c);
        lemma_rat_add_assoc(a, b, d);
        assert(combined == rat_add(rat_add(a, rat_add(b, d)), c));
        // b + d collapses: the two coefficients at the shared knot sum to n.
        assert(app == (Ratv { num: app.num, den: 2 * x0.den }) && c2 == (Ratv {
            num: c2.num,
            den: 2 * x0.den,
        })) by (nonlinear_arith)
            requires
                app.den == 2 * x0.den,
                c2.den == 2 * zj.den,
                zj.den == x0.den * 1,
        ;
        assert(cpp == bm);
        lemma_rat_coeff_combine(app.num, c2.num, 2 * x0.den, cpp);
        assert(app.num + c2.num == n * (2 * x0.den)) by (nonlinear_arith)
            requires
                jj >= 2,
                app.num == 2 * x0.num + (2 * (jj - 2) + n + 1) * x0.den,
                c2.num == (n + 1) * zj.den + (-zj.num) * 2,
                zj.num == x0.num * 1 + (jj - 1) * x0.den,
                zj.den == x0.den * 1,
        ;
        assert((Ratv { num: app.num + c2.num, den: 2 * x0.den }) == (Ratv {
            num: (n as int) * (2 * x0.den),
            den: (2 * x0.den) * 1,
        }));
        lemma_rat_scale_simple(n as int, 2 * x0.den, 1);
        lemma_b_at_wf(m, argm);
        assert(rat_wf((Ratv { num: app.num + c2.num, den: 2 * x0.den })) && rat_wf(
            rat_mul(Ratv { num: app.num + c2.num, den: 2 * x0.den }, cpp),
        )) by (nonlinear_arith)
            requires
                x0.den >= 1,
                cpp.den >= 1,
                rat_mul(Ratv { num: app.num + c2.num, den: 2 * x0.den }, cpp).den == (2 * x0.den)
                    * cpp.den,
        ;
        lemma_rat_mul_cong(
            Ratv { num: app.num + c2.num, den: 2 * x0.den },
            rat_int(n as int),
            cpp,
            cpp,
        );
        lemma_rat_wf_mul(nr, cpp);
        lemma_rat_wf_add(b, d);
        lemma_rat_eq_trans(
            rat_add(b, d),
            rat_mul(Ratv { num: app.num + c2.num, den: 2 * x0.den }, cpp),
            rat_mul(nr, cpp),
        );
        // a + (b + d) folds back into n * T_{jj-1}.
        lemma_rat_add_cong(a, a, rat_add(b, d), rat_mul(nr, cpp));
        lemma_rat_int_mul_add(n as int, tpp, cpp);
        lemma_rat_wf_add(a, rat_mul(nr, cpp));
        lemma_rat_wf_add(a, rat_add(b, d));
        lemma_rat_wf_mul(nr, tp);
        lemma_rat_eq_sym(rat_mul(nr, tp), rat_add(a, rat_mul(nr, cpp)));
        lemma_rat_eq_trans(rat_add(a, rat_add(b, d)), rat_add(a, rat_mul(nr, cpp)), rat_mul(nr, tp));
        // Reattach the boundary term.
        lemma_rat_add_cong(rat_add(a, rat_add(b, d)), rat_mul(nr, tp), c, c);
        lemma_rat_wf_add(rat_add(a, rat_add(b, d)), c);
        lemma_rat_wf_add(rat_mul(nr, tp), c);
        lemma_rat_eq_trans(
            rat_mul(nr, b_translates(n, x0, jj)),
            combined,
            rat_add(rat_add(a, rat_add(b, d)), c),
        );
        lemma_rat_eq_trans(
            rat_mul(nr, b_translates(n, x0, jj)),
            rat_add(rat_add(a, rat_add(b, d)), c),
            rat_add(rat_mul(nr, tp), c),
        );
    }
}

/// Partition of unity: for every order `n` and every starting offset `x0` in
/// `[-(n+1)/2, -(n+1)/2 + 1)`, the `n + 2` integer translates that can meet
/// the support sum to exactly `1`.
pub proof fn lemma_partition_of_unity(n: nat, x0: Ratv)
    requires
        rat_wf(x0),
        rat_le(rat_half(-(n as int) - 1), x0),
        rat_lt(x0, rat_half(1 - n as int)),
    ensures
        rat_eq(b_translates(n, x0, n + 2), rat_int(1)),
    decreases n,
{
    if n == 0 {
        lemma_partition_of_unity_box(x0);
    } else {
        let m = (n - 1) as nat;
        let y0 = rat_add(x0, rat_half(1));
        let nr = rat_int(n as int);
        let s = b_translates(n, x0, n + 2);
        let tp = b_translates(m, y0, (n + 1) as nat);
        assert(rat_wf(y0) && rat_le(rat_half(-(m as int) - 1), y0) && rat_lt(
            y0,
            rat_half(1 - m as int),
        )) by (nonlinear_arith)
            requires
                x0.den >= 1,
                n >= 1,
                m == n - 1,
                (-(n as int) - 1) * x0.den <= x0.num * 2,
                x0.num * 2 < (1 - n as int) * x0.den,
                y0.num == x0.num * 2 + 1 * x0.den,
                y0.den == x0.den * 2,
        ;
        lemma_partition_of_unity(m, y0);
        lemma_partition_step(n, x0, n + 2);
        // The boundary term at y0 + (n+1) lies strictly beyond the support.
        let ct_arg = rat_add(y0, rat_int((n + 2) as int - 1));
        let acf = acoeff(x0, n, (n + 2) as int - 1);
        assert(rat_wf(ct_arg) && rat_wf(acf) && rat_le(rat_half(m + 1 as int), rat_abs(ct_arg)) && (
        m == 0 ==> !rat_eq(rat_abs(ct_arg), rat_half(1)))) by (nonlinear_arith)
            requires
                x0.den >= 1,
                n >= 1,
                m == n - 1,
                (-(n as int) - 1) * x0.den <= x0.num * 2,
                y0.num == x0.num * 2 + 1 * x0.den,
                y0.den == x0.den * 2,
                ct_arg.num == y0.num * 1 + ((n + 2) as int - 1) * y0.den,
                ct_arg.den == y0.den * 1,
                acf.den == 2 * x0.den,
                rat_abs(ct_arg).num == (if ct_arg.num < 0 {
                    -ct_arg.num
                } else {
                    ct_arg.num
                }),
                rat_abs(ct_arg).den == ct_arg.den,
        ;
        lemma_compact_support(m, ct_arg);
        lemma_b_at_wf(m, ct_arg);
        lemma_rat_mul_zero(acf, b_at(m, ct_arg));
        lemma_b_translates_wf(m, y0, (n + 1) as nat);
        lemma_b_translates_wf(n, x0, (n + 2) as nat);
        lemma_rat_wf_mul(nr, tp);
        lemma_rat_wf_mul(acf, b_at(m, ct_arg));
        lemma_rat_add_zero(rat_mul(nr, tp), rat_mul(acf, b_at(m, ct_arg)));
        lemma_rat_wf_mul(nr, s);
        lemma_rat_wf_add(rat_mul(nr, tp), rat_mul(acf, b_at(m, ct_arg)));
        lemma_rat_eq_trans(
            rat_mul(nr, s),
            rat_add(rat_mul(nr, tp), rat_mul(acf, b_at(m, ct_arg))),
            rat_mul(nr, tp),
        );
        // n * T == n * 1 == n, and the factor n cancels.
        lemma_rat_mul_cong(nr, nr, tp, rat_int(1));
        assert(rat_eq(rat_mul(nr, rat_int(1)), rat_int(n as int))) by (nonlinear_arith)
            requires
                rat_mul(nr, rat_int(1)).num == (n as int) * 1,
                rat_mul(nr, rat_int(1)).den == 1 * 1,
        ;
        lemma_rat_wf_mul(nr, rat_int(1));
        lemma_rat_eq_trans(rat_mul(nr, s), rat_mul(nr, tp), rat_mul(nr, rat_int(1)));
        lemma_rat_eq_trans(rat_mul(nr, s), rat_mul(nr, rat_int(1)), rat_int(n as int));
        lemma_rat_cancel_to_one(s, n as int);
    }
}

} // verus!
