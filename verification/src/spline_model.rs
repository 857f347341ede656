//! The mathematical model of cardinal B-splines.
//!
//! `b_at(n, x)` is the order-`n` cardinal B-spline at the rational point `x`,
//! defined by the Cox-de Boor recurrence over the order-0 box kernel. The box
//! takes the midpoint value `1/2` at its two jump points, the average of the
//! one-sided limits; with that convention the recurrence reproduces the
//! closed forms of the low orders exactly, jump points included.

use crate::rational::Ratv;
use crate::rational::lemma_rat_add_cong;
use crate::rational::lemma_rat_div_int_cong;
use crate::rational::lemma_rat_eq_trans;
use crate::rational::lemma_rat_mul_cong;
use crate::rational::rat_abs;
use crate::rational::rat_add;
use crate::rational::rat_div_int;
use crate::rational::rat_eq;
use crate::rational::rat_half;
use crate::rational::rat_int;
use crate::rational::rat_le;
use crate::rational::rat_lt;
use crate::rational::rat_mul;
use crate::rational::rat_neg;
use crate::rational::rat_sub;
use crate::rational::rat_wf;
use vstd::prelude::*;

verus! {

/// Order-0 kernel: the symmetric box function, `1` on `(-1/2, 1/2)`, `1/2` at
/// the two jump points, `0` outside.
pub open spec fn box_at(x: Ratv) -> Ratv {
    if rat_lt(rat_abs(x), rat_half(1)) {
        rat_int(1)
    } else if rat_eq(rat_abs(x), rat_half(1)) {
        rat_half(1)
    } else {
        rat_int(0)
    }
}

/// The order-`n` cardinal B-spline at `x`, by the Cox-de Boor recurrence on
/// uniform knots centred at the origin:
/// `n * B_n(x) == (x + (n+1)/2) * B_{n-1}(x + 1/2) + ((n+1)/2 - x) * B_{n-1}(x - 1/2)`.
pub open spec fn b_at(n: nat, x: Ratv) -> Ratv
    decreases n,
{
    if n == 0 {
        box_at(x)
    } else {
        rat_div_int(
            rat_add(
                rat_mul(rat_add(x, rat_half(n + 1 as int)), b_at((n - 1) as nat, rat_add(x, rat_half(1)))),
                rat_mul(rat_sub(rat_half(n + 1 as int), x), b_at((n - 1) as nat, rat_sub(x, rat_half(1)))),
            ),
            n as int,
        )
    }
}

/// The spline value is a well-formed fraction whenever the point is.
pub proof fn lemma_b_at_wf(n: nat, x: Ratv)
    requires
        rat_wf(x),
    ensures
        rat_wf(b_at(n, x)),
    decreases n,
{
    if n > 0 {
        lemma_b_at_wf((n - 1) as nat, rat_add(x, rat_half(1)));
        lemma_b_at_wf((n - 1) as nat, rat_sub(x, rat_half(1)));
        let c1 = rat_add(x, rat_half(n + 1 as int));
        let c2 = rat_sub(rat_half(n + 1 as int), x);
        let u = rat_mul(c1, b_at((n - 1) as nat, rat_add(x, rat_half(1))));
        let v = rat_mul(c2, b_at((n - 1) as nat, rat_sub(x, rat_half(1))));
        assert(u.den >= 1 && v.den >= 1) by (nonlinear_arith)
            requires
                c1.den >= 1,
                c2.den >= 1,
                b_at((n - 1) as nat, rat_add(x, rat_half(1))).den >= 1,
                b_at((n - 1) as nat, rat_sub(x, rat_half(1))).den >= 1,
                u.den == c1.den * b_at((n - 1) as nat, rat_add(x, rat_half(1))).den,
                v.den == c2.den * b_at((n - 1) as nat, rat_sub(x, rat_half(1))).den,
        ;
        assert(rat_add(u, v).den >= 1 && rat_add(u, v).den * n >= 1) by (nonlinear_arith)
            requires
                u.den >= 1,
                v.den >= 1,
                n >= 1,
                rat_add(u, v).den == u.den * v.den,
        ;
    }
}

/// The spline depends on the point only through its rational value.
pub proof fn lemma_b_at_cong(n: nat, x: Ratv, y: Ratv)
    requires
        rat_wf(x),
        rat_wf(y),
        rat_eq(x, y),
    ensures
        rat_eq(b_at(n, x), b_at(n, y)),
    decreases n,
{
    if n == 0 {
        crate::rational::lemma_rat_abs_cong(x, y);
        crate::rational::lemma_rat_cmp_cong(rat_abs(x), rat_abs(y), rat_half(1), rat_half(1));
    } else {
        let m = (n - 1) as nat;
        let xp = rat_add(x, rat_half(1));
        let yp = rat_add(y, rat_half(1));
        let xm = rat_sub(x, rat_half(1));
        let ym = rat_sub(y, rat_half(1));
        lemma_rat_add_cong(x, y, rat_half(1), rat_half(1));
        lemma_rat_add_cong(x, y, rat_neg(rat_half(1)), rat_neg(rat_half(1)));
        lemma_b_at_cong(m, xp, yp);
        lemma_b_at_cong(m, xm, ym);
        lemma_b_at_wf(m, xp);
        lemma_b_at_wf(m, yp);
        lemma_b_at_wf(m, xm);
        lemma_b_at_wf(m, ym);
        let c1x = rat_add(x, rat_half(n + 1 as int));
        let c1y = rat_add(y, rat_half(n + 1 as int));
        let c2x = rat_sub(rat_half(n + 1 as int), x);
        let c2y = rat_sub(rat_half(n + 1 as int), y);
        lemma_rat_add_cong(x, y, rat_half(n + 1 as int), rat_half(n + 1 as int));
        crate::rational::lemma_rat_neg_cong(x, y);
        lemma_rat_add_cong(rat_half(n + 1 as int), rat_half(n + 1 as int), rat_neg(x), rat_neg(y));
        lemma_rat_mul_cong(c1x, c1y, b_at(m, xp), b_at(m, yp));
        lemma_rat_mul_cong(c2x, c2y, b_at(m, xm), b_at(m, ym));
        let ux = rat_mul(c1x, b_at(m, xp));
        let uy = rat_mul(c1y, b_at(m, yp));
        let vx = rat_mul(c2x, b_at(m, xm));
        let vy = rat_mul(c2y, b_at(m, ym));
        assert(rat_wf(ux) && rat_wf(uy) && rat_wf(vx) && rat_wf(vy)) by (nonlinear_arith)
            requires
                c1x.den >= 1 && c1y.den >= 1 && c2x.den >= 1 && c2y.den >= 1,
                b_at(m, xp).den >= 1 && b_at(m, yp).den >= 1,
                b_at(m, xm).den >= 1 && b_at(m, ym).den >= 1,
                ux.den == c1x.den * b_at(m, xp).den,
                uy.den == c1y.den * b_at(m, yp).den,
                vx.den == c2x.den * b_at(m, xm).den,
                vy.den == c2y.den * b_at(m, ym).den,
        ;
        lemma_rat_add_cong(ux, uy, vx, vy);
        assert(rat_wf(rat_add(ux, vx)) && rat_wf(rat_add(uy, vy))) by (nonlinear_arith)
            requires
                ux.den >= 1 && uy.den >= 1 && vx.den >= 1 && vy.den >= 1,
                rat_add(ux, vx).den == ux.den * vx.den,
                rat_add(uy, vy).den == uy.den * vy.den,
        ;
        lemma_rat_div_int_cong(rat_add(ux, vx), rat_add(uy, vy), n as int);
    }
}

/// Evenness: `B_n(-x) == B_n(x)`, exactly.
pub proof fn lemma_b_at_even(n: nat, x: Ratv)
    requires
        rat_wf(x),
    ensures
        rat_eq(b_at(n, rat_neg(x)), b_at(n, x)),
    decreases n,
{
    if n == 0 {
        assert(rat_abs(rat_neg(x)) == rat_abs(x));
    } else {
        let m = (n - 1) as nat;
        let xp = rat_add(x, rat_half(1));
        let xm = rat_sub(x, rat_half(1));
        // The two recurrence arguments at -x are the negations of those at x,
        // with the roles of the two terms exchanged.
        assert(rat_add(rat_neg(x), rat_half(1)) == rat_neg(xm));
        assert(rat_sub(rat_neg(x), rat_half(1)) == rat_neg(xp));
        assert(rat_add(rat_neg(x), rat_half(n + 1 as int)) == rat_sub(rat_half(n + 1 as int), x));
        assert(rat_sub(rat_half(n + 1 as int), rat_neg(x)) == rat_add(x, rat_half(n + 1 as int)));
        lemma_b_at_even(m, xp);
        lemma_b_at_even(m, xm);
        lemma_b_at_wf(m, rat_neg(xp));
        lemma_b_at_wf(m, rat_neg(xm));
        lemma_b_at_wf(m, xp);
        lemma_b_at_wf(m, xm);
        let c1 = rat_add(x, rat_half(n + 1 as int));
        let c2 = rat_sub(rat_half(n + 1 as int), x);
        assert(rat_wf(c1) && rat_wf(c2)) by (nonlinear_arith)
            requires
                x.den >= 1,
                c1.den == x.den * 2,
                c2.den == 2 * x.den,
        ;
        lemma_rat_mul_cong(c2, c2, b_at(m, rat_neg(xm)), b_at(m, xm));
        lemma_rat_mul_cong(c1, c1, b_at(m, rat_neg(xp)), b_at(m, xp));
        let u = rat_mul(c2, b_at(m, rat_neg(xm)));
        let u2 = rat_mul(c2, b_at(m, xm));
        let v = rat_mul(c1, b_at(m, rat_neg(xp)));
        let v2 = rat_mul(c1, b_at(m, xp));
        assert(rat_wf(u) && rat_wf(u2) && rat_wf(v) && rat_wf(v2)) by (nonlinear_arith)
            requires
                c1.den >= 1 && c2.den >= 1,
                b_at(m, rat_neg(xm)).den >= 1 && b_at(m, xm).den >= 1,
                b_at(m, rat_neg(xp)).den >= 1 && b_at(m, xp).den >= 1,
                u.den == c2.den * b_at(m, rat_neg(xm)).den,
                u2.den == c2.den * b_at(m, xm).den,
                v.den == c1.den * b_at(m, rat_neg(xp)).den,
                v2.den == c1.den * b_at(m, xp).den,
        ;
        lemma_rat_add_cong(u, u2, v, v2);
        // b_at(n, -x) sums the same two products in the other order.
        let s = rat_add(u, v);
        let s2 = rat_add(v2, u2);
        assert(rat_wf(s) && rat_wf(s2) && rat_wf(rat_add(u2, v2))) by (nonlinear_arith)
            requires
                u.den >= 1 && v.den >= 1 && u2.den >= 1 && v2.den >= 1,
                s.den == u.den * v.den,
                s2.den == v2.den * u2.den,
                rat_add(u2, v2).den == u2.den * v2.den,
        ;
        crate::rational::lemma_rat_add_comm(u2, v2);
        lemma_rat_eq_trans(s, rat_add(u2, v2), s2);
        lemma_rat_div_int_cong(s, s2, n as int);
        assert(b_at(n, rat_neg(x)) == rat_div_int(s, n as int));
        assert(b_at(n, x) == rat_div_int(s2, n as int));
    }
}

/// Order-1 kernel in closed form: the hat function `1 - |x|` inside `(-1, 1)`,
/// `0` outside.
pub open spec fn hat_at(x: Ratv) -> Ratv {
    if rat_lt(rat_abs(x), rat_int(1)) {
        rat_sub(rat_int(1), rat_abs(x))
    } else {
        rat_int(0)
    }
}

/// The recurrence reproduces the hat function exactly, jump points included.
pub proof fn lemma_b_at_hat(x: Ratv)
    requires
        rat_wf(x),
    ensures
        rat_eq(b_at(1, x), hat_at(x)),
{
    if x.num < 0 {
        let y = rat_neg(x);
        assert(rat_neg(y) == x);
        lemma_b_at_even(1, y);
        lemma_b_at_hat_nonneg(y);
        lemma_b_at_wf(1, y);
        lemma_b_at_wf(1, x);
        assert(rat_abs(x) == rat_abs(y));
        assert(rat_wf(hat_at(y))) by (nonlinear_arith)
            requires
                y.den >= 1,
                hat_at(y).den == 1 * y.den || hat_at(y).den == 1,
        ;
        lemma_rat_eq_trans(b_at(1, x), b_at(1, y), hat_at(y));
    } else {
        lemma_b_at_hat_nonneg(x);
    }
}

proof fn lemma_b_at_hat_nonneg(x: Ratv)
    requires
        rat_wf(x),
        x.num >= 0,
    ensures
        rat_eq(b_at(1, x), hat_at(x)),
{
    let c1 = rat_add(x, rat_half(2));
    let c2 = rat_sub(rat_half(2), x);
    let bp = box_at(rat_add(x, rat_half(1)));
    let bm = box_at(rat_sub(x, rat_half(1)));
    let u = rat_mul(c1, bp);
    let v = rat_mul(c2, bm);
    let r = b_at(1, x);
    assert(r == rat_div_int(rat_add(u, v), 1)) by {
        reveal_with_fuel(b_at, 2);
    }
    let t = hat_at(x);
    let xp = rat_add(x, rat_half(1));
    let xm = rat_sub(x, rat_half(1));
    if x.num == 0 {
        assert(xp.num == x.den && xp.den == x.den * 2);
        assert(!(xp.num < 0));
        assert(rat_abs(xp) == xp);
        assert(!rat_lt(rat_abs(xp), rat_half(1)));
        assert(rat_eq(rat_abs(xp), rat_half(1)));
        assert(box_at(xp) == rat_half(1));
        assert(bp == rat_half(1));
        assert(xm.num == x.num * 2 + (-1) * x.den);
        assert(xm.num == -x.den && xm.den == x.den * 2);
        assert(xm.num < 0);
        assert(rat_abs(xm) == rat_neg(xm));
        assert(rat_neg(xm).num == x.den);
        assert(!rat_lt(rat_abs(xm), rat_half(1)));
        assert(rat_eq(rat_abs(xm), rat_half(1)));
        assert(box_at(xm) == rat_half(1));
        assert(bm == box_at(xm));
        assert(bp == rat_half(1) && bm == rat_half(1));
        assert(rat_eq(r, t)) by (nonlinear_arith)
            requires
                x.den >= 1,
                x.num == 0,
                r.num == u.num * v.den + v.num * u.den,
                r.den == (u.den * v.den) * 1,
                u.num == c1.num * 1 && u.den == c1.den * 2,
                v.num == c2.num * 1 && v.den == c2.den * 2,
                c1.num == x.num * 2 + 2 * x.den && c1.den == x.den * 2,
                c2.num == 2 * x.den + (-x.num) * 2 && c2.den == 2 * x.den,
                t.num == 1 * x.den + (-x.num) * 1 && t.den == 1 * x.den,
        ;
    } else if x.num < x.den {
        assert(bp == rat_int(0) && bm == rat_int(1));
        assert(rat_lt(rat_abs(x), rat_int(1)));
        assert(rat_eq(r, t)) by (nonlinear_arith)
            requires
                x.den >= 1,
                0 < x.num < x.den,
                r.num == u.num * v.den + v.num * u.den,
                r.den == (u.den * v.den) * 1,
                u.num == c1.num * 0 && u.den == c1.den * 1,
                v.num == c2.num * 1 && v.den == c2.den * 1,
                c1.den == x.den * 2,
                c2.num == 2 * x.den + (-x.num) * 2 && c2.den == 2 * x.den,
                t.num == 1 * x.den + (-x.num) * 1 && t.den == 1 * x.den,
        ;
    } else if x.num == x.den {
        assert(bp == rat_int(0) && bm == rat_half(1));
        assert(!rat_lt(rat_abs(x), rat_int(1)));
        assert(rat_eq(r, t)) by (nonlinear_arith)
            requires
                x.den >= 1,
                x.num == x.den,
                r.num == u.num * v.den + v.num * u.den,
                r.den == (u.den * v.den) * 1,
                u.num == c1.num * 0 && u.den == c1.den * 1,
                v.num == c2.num * 1 && v.den == c2.den * 2,
                c1.den == x.den * 2,
                c2.num == 2 * x.den + (-x.num) * 2 && c2.den == 2 * x.den,
                t.num == 0 && t.den == 1,
        ;
    } else {
        assert(bp == rat_int(0) && bm == rat_int(0));
        assert(!rat_lt(rat_abs(x), rat_int(1)));
        assert(rat_eq(r, t)) by (nonlinear_arith)
            requires
                x.den >= 1,
                x.num > x.den,
                r.num == u.num * v.den + v.num * u.den,
                r.den == (u.den * v.den) * 1,
                u.num == c1.num * 0 && u.den == c1.den * 1,
                v.num == c2.num * 0 && v.den == c2.den * 1,
                c1.den == x.den * 2,
                c2.den == 2 * x.den,
                t.num == 0 && t.den == 1,
        ;
    }
}

/// Compact support: the order-`n` spline vanishes wherever `|x| >= (n+1)/2`.
///
/// The one exception is the pair of jump points of the order-0 box, where the
/// midpoint convention yields `1/2`; they are excluded below.
pub proof fn lemma_compact_support(n: nat, x: Ratv)
    requires
        rat_wf(x),
        rat_le(rat_half(n + 1 as int), rat_abs(x)),
        n == 0 ==> !rat_eq(rat_abs(x), rat_half(1)),
    ensures
        rat_eq(b_at(n, x), rat_int(0)),
{
    if x.num < 0 {
        let y = rat_abs(x);
        assert(rat_neg(y) == x);
        lemma_b_at_even(n, y);
        lemma_b_at_wf(n, y);
        lemma_b_at_wf(n, x);
        assert(rat_abs(y) == y);
        lemma_compact_support_pos(n, y);
        lemma_rat_eq_trans(b_at(n, x), b_at(n, y), rat_int(0));
    } else {
        assert(rat_abs(x) == x);
        lemma_compact_support_pos(n, x);
    }
}

proof fn lemma_compact_support_pos(n: nat, x: Ratv)
    requires
        rat_wf(x),
        x.num >= 0,
        rat_le(rat_half(n + 1 as int), x),
        n == 0 ==> !rat_eq(x, rat_half(1)),
    ensures
        rat_eq(b_at(n, x), rat_int(0)),
    decreases n,
{
    if n == 0 {
        assert(x.num * 2 >= 1 * x.den);
        assert(rat_abs(x) == x);
        assert(!rat_lt(rat_abs(x), rat_half(1)));
        assert(b_at(0, x) == rat_int(0));
    } else {
        let m = (n - 1) as nat;
        let xp = rat_add(x, rat_half(1));
        let xm = rat_sub(x, rat_half(1));
        let c1 = rat_add(x, rat_half(n + 1 as int));
        let c2 = rat_sub(rat_half(n + 1 as int), x);
        // The left term: x + 1/2 lies strictly beyond the order-(n-1) support.
        assert(xp.num >= 0 && rat_le(rat_half(m + 1 as int), xp) && !rat_eq(xp, rat_half(1)))
            by (nonlinear_arith)
            requires
                x.den >= 1,
                x.num >= 0,
                (n + 1 as int) * x.den <= x.num * 2,
                n >= 1,
                m == n - 1,
                xp.num == x.num * 2 + 1 * x.den,
                xp.den == x.den * 2,
        ;
        lemma_compact_support_pos(m, xp);
        let bp = b_at(m, xp);
        let bm = b_at(m, xm);
        let t1 = rat_mul(c1, bp);
        let t2 = rat_mul(c2, bm);
        assert(bp.num == 0);
        assert(t1.num == c1.num * 0 && c1.num * 0 == 0);
        if rat_eq(x, rat_half(n + 1 as int)) {
            // At the support boundary the right coefficient vanishes.
            assert(c2.num == 0) by (nonlinear_arith)
                requires
                    x.den >= 1,
                    x.num * 2 == (n + 1 as int) * x.den,
                    c2.num == (n + 1 as int) * x.den + (-x.num) * 2,
            ;
            assert(t2.num == 0 * bm.num && 0 * bm.num == 0);
        } else {
            // Strictly outside: x - 1/2 also lies beyond the order-(n-1) support.
            assert(xm.num >= 0 && rat_le(rat_half(m + 1 as int), xm) && !rat_eq(xm, rat_half(1)))
                by (nonlinear_arith)
                requires
                    x.den >= 1,
                    x.num >= 0,
                    (n + 1 as int) * x.den <= x.num * 2,
                    x.num * 2 != (n + 1 as int) * x.den,
                    n >= 1,
                    m == n - 1,
                    xm.num == x.num * 2 + (-1) * x.den,
                    xm.den == x.den * 2,
            ;
            lemma_compact_support_pos(m, xm);
            assert(bm.num == 0);
            assert(t2.num == c2.num * 0 && c2.num * 0 == 0);
        }
        assert(rat_add(t1, t2).num == t1.num * t2.den + t2.num * t1.den);
        assert(t1.num * t2.den == 0 && t2.num * t1.den == 0);
        assert(b_at(n, x).num == 0);
    }
}

} // verus!
