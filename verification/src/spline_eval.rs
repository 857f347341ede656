//! Exact evaluators for cardinal B-splines and their first two derivatives.
//!
//! Each evaluator takes the order at run time and an exact rational point,
//! exploits even symmetry, returns zero outside the compact support, and for
//! orders two and above folds a working buffer of order-1 kernel values
//! through linear blending passes, exactly as the Cox-de Boor recurrence
//! prescribes. All arithmetic is integer arithmetic on numerators over a
//! common denominator; an evaluation that could exceed `i128` is refused
//! (`None`), and `fits` says exactly when that happens.

use crate::capacity::fits;
use crate::capacity::fits_check;
use crate::capacity::lemma_fits_room;
use crate::capacity::lemma_stage_cap_monotone;
use crate::capacity::lemma_stage_cap_pos;
use crate::capacity::stage_cap;
use crate::capacity::stage_den;
use crate::rational::Rat;
use crate::rational::Ratv;
use crate::rational::lemma_rat_add_cong;
use crate::rational::lemma_rat_blend;
use crate::rational::lemma_rat_eq_sym;
use crate::rational::lemma_rat_eq_trans;
use crate::rational::lemma_rat_mul_cong;
use crate::rational::lemma_rat_div_int_cong;
use crate::rational::rat_abs;
use crate::rational::rat_add;
use crate::rational::rat_div_int;
use crate::rational::rat_eq;
use crate::rational::rat_half;
use crate::rational::rat_int;
use crate::rational::rat_le;
use crate::rational::rat_lt;
use crate::rational::rat_mul;
use crate::rational::rat_neg;
use crate::rational::rat_sub;
use crate::rational::rat_wf;
use crate::spline_model::b_at;
use crate::spline_model::box_at;
use crate::spline_model::hat_at;
use crate::spline_model::lemma_b_at_cong;
use crate::spline_model::lemma_b_at_even;
use crate::spline_model::lemma_b_at_hat;
use crate::spline_model::lemma_b_at_wf;
use crate::spline_model::lemma_compact_support;
use vstd::prelude::*;

verus! {

/// The knot offset held by buffer slot `k` at stage `j` of an order-`n`
/// evaluation at the nonnegative point `p/q`:
/// `p/q + (j+1)/2 - (n+1)/2 + k`, over the common denominator `2q`.
pub open spec fn knot(p: int, q: int, n: nat, j: nat, k: int) -> Ratv {
    Ratv { num: 2 * p + (j - n + 2 * k) * q, den: 2 * q }
}

/// Order-0 kernel: `1` inside `(-1/2, 1/2)`, `1/2` at the boundary, `0`
/// outside.
fn box_eval(x: &Rat) -> (r: Rat)
    requires
        rat_wf(x@),
    ensures
        rat_wf(r@),
        rat_eq(r@, b_at(0, x@)),
{
    let num = x.num;
    let den = x.den;
    if num >= 0 {
        let rest = den - num;
        if num < rest {
            proof {
                assert(rat_lt(rat_abs(x@), rat_half(1)) && rat_eq(
                    (Ratv { num: 1int, den: 1int }),
                    box_at(x@),
                )) by (nonlinear_arith)
                    requires
                        x@.num >= 0,
                        x@.den >= 1,
                        x@.num < x@.den - x@.num,
                        rat_abs(x@) == x@,
                        box_at(x@) == (if rat_lt(rat_abs(x@), rat_half(1)) {
                            rat_int(1)
                        } else if rat_eq(rat_abs(x@), rat_half(1)) {
                            rat_half(1)
                        } else {
                            rat_int(0)
                        }),
                ;
            }
            Rat { num: 1, den: 1 }
        } else if num == rest {
            proof {
                assert(!rat_lt(rat_abs(x@), rat_half(1)) && rat_eq(rat_abs(x@), rat_half(1))
                    && rat_eq((Ratv { num: 1int, den: 2int }), box_at(x@))) by (nonlinear_arith)
                    requires
                        x@.num >= 0,
                        x@.den >= 1,
                        x@.num == x@.den - x@.num,
                        rat_abs(x@) == x@,
                        box_at(x@) == (if rat_lt(rat_abs(x@), rat_half(1)) {
                            rat_int(1)
                        } else if rat_eq(rat_abs(x@), rat_half(1)) {
                            rat_half(1)
                        } else {
                            rat_int(0)
                        }),
                ;
            }
            Rat { num: 1, den: 2 }
        } else {
            proof {
                assert(!rat_lt(rat_abs(x@), rat_half(1)) && !rat_eq(rat_abs(x@), rat_half(1))
                    && rat_eq((Ratv { num: 0int, den: 1int }), box_at(x@))) by (nonlinear_arith)
                    requires
                        x@.num >= 0,
                        x@.den >= 1,
                        x@.num > x@.den - x@.num,
                        rat_abs(x@) == x@,
                        box_at(x@) == (if rat_lt(rat_abs(x@), rat_half(1)) {
                            rat_int(1)
                        } else if rat_eq(rat_abs(x@), rat_half(1)) {
                            rat_half(1)
                        } else {
                            rat_int(0)
                        }),
                ;
            }
            Rat { num: 0, den: 1 }
        }
    } else {
        let s = den + num;
        if num > -s {
            proof {
                assert(rat_lt(rat_abs(x@), rat_half(1)) && rat_eq(
                    (Ratv { num: 1int, den: 1int }),
                    box_at(x@),
                )) by (nonlinear_arith)
                    requires
                        x@.num < 0,
                        x@.den >= 1,
                        x@.num > -(x@.den + x@.num),
                        rat_abs(x@) == rat_neg(x@),
                        box_at(x@) == (if rat_lt(rat_abs(x@), rat_half(1)) {
                            rat_int(1)
                        } else if rat_eq(rat_abs(x@), rat_half(1)) {
                            rat_half(1)
                        } else {
                            rat_int(0)
                        }),
                ;
            }
            Rat { num: 1, den: 1 }
        } else if num == -s {
            proof {
                assert(!rat_lt(rat_abs(x@), rat_half(1)) && rat_eq(rat_abs(x@), rat_half(1))
                    && rat_eq((Ratv { num: 1int, den: 2int }), box_at(x@))) by (nonlinear_arith)
                    requires
                        x@.num < 0,
                        x@.den >= 1,
                        x@.num == -(x@.den + x@.num),
                        rat_abs(x@) == rat_neg(x@),
                        box_at(x@) == (if rat_lt(rat_abs(x@), rat_half(1)) {
                            rat_int(1)
                        } else if rat_eq(rat_abs(x@), rat_half(1)) {
                            rat_half(1)
                        } else {
                            rat_int(0)
                        }),
                ;
            }
            Rat { num: 1, den: 2 }
        } else {
            proof {
                assert(!rat_lt(rat_abs(x@), rat_half(1)) && !rat_eq(rat_abs(x@), rat_half(1))
                    && rat_eq((Ratv { num: 0int, den: 1int }), box_at(x@))) by (nonlinear_arith)
                    requires
                        x@.num < 0,
                        x@.den >= 1,
                        x@.num < -(x@.den + x@.num),
                        rat_abs(x@) == rat_neg(x@),
                        box_at(x@) == (if rat_lt(rat_abs(x@), rat_half(1)) {
                            rat_int(1)
                        } else if rat_eq(rat_abs(x@), rat_half(1)) {
                            rat_half(1)
                        } else {
                            rat_int(0)
                        }),
                ;
            }
            Rat { num: 0, den: 1 }
        }
    }
}

/// Order-1 kernel numerator over the denominator `d`: `d - |zn|` inside the
/// support, `0` outside.
fn hat_num(zn: i128, d: i128) -> (w: i128)
    requires
        d >= 1,
    ensures
        0 <= w <= d,
        rat_eq(
            Ratv { num: w as int, den: d as int },
            b_at(1, Ratv { num: zn as int, den: d as int }),
        ),
{
    let ghost z = Ratv { num: zn as int, den: d as int };
    proof {
        lemma_b_at_hat(z);
        lemma_b_at_wf(1, z);
    }
    if zn > -d && zn < d {
        let a = if zn < 0 {
            -zn
        } else {
            zn
        };
        let w = d - a;
        proof {
            assert(rat_lt(rat_abs(z), rat_int(1))) by (nonlinear_arith)
                requires
                    z.den >= 1,
                    -z.den < z.num < z.den,
                    rat_abs(z).num == (if z.num < 0 {
                        -z.num
                    } else {
                        z.num
                    }),
                    rat_abs(z).den == z.den,
            ;
            assert(hat_at(z) == rat_sub(rat_int(1), rat_abs(z)));
            let t = rat_sub(rat_int(1), rat_abs(z));
            assert(rat_wf(t) && rat_eq((Ratv { num: w as int, den: d as int }), t))
                by (nonlinear_arith)
                requires
                    z.den >= 1,
                    d as int == z.den,
                    -z.den < z.num < z.den,
                    rat_abs(z).num == (if z.num < 0 {
                        -z.num
                    } else {
                        z.num
                    }),
                    rat_abs(z).den == z.den,
                    w == z.den - (if z.num < 0 {
                        -z.num
                    } else {
                        z.num
                    }),
                    t.num == 1 * rat_abs(z).den + (-rat_abs(z).num) * 1,
                    t.den == 1 * rat_abs(z).den,
            ;
            lemma_rat_eq_trans(Ratv { num: w as int, den: d as int }, hat_at(z), b_at(1, z));
        }
        w
    } else {
        proof {
            assert(!rat_lt(rat_abs(z), rat_int(1))) by (nonlinear_arith)
                requires
                    z.den >= 1,
                    z.num <= -z.den || z.num >= z.den,
                    rat_abs(z).num == (if z.num < 0 {
                        -z.num
                    } else {
                        z.num
                    }),
                    rat_abs(z).den == z.den,
            ;
            assert(hat_at(z) == rat_int(0));
            assert(rat_eq((Ratv { num: 0int, den: d as int }), rat_int(0))) by (nonlinear_arith)
                requires
                    d >= 1,
            ;
            lemma_rat_eq_trans(Ratv { num: 0int, den: d as int }, hat_at(z), b_at(1, z));
        }
        0
    }
}

/// Folds the order-1 working buffer up to stage `stop` of an order-`n`
/// evaluation at `p/q`, which must lie inside the support. Returns the buffer
/// of `n - stop + 1` numerators together with their common denominator; slot
/// `k` holds the order-`stop` spline at `knot(p, q, n, stop, k)`.
#[verifier::loop_isolation(false)]
fn fold_stages(n: u32, p: i128, q: i128, stop: u32) -> (res: (Vec<i128>, i128))
    requires
        n >= 2,
        1 <= stop <= n,
        q >= 1,
        p >= 0,
        2 * p < (n + 1) * q,
        fits(n as nat, q as int),
    ensures
        res.1 == stage_den(q as int, stop as nat),
        1 <= res.1 <= stage_cap(q as int, n as nat, stop as nat),
        res.0@.len() == n - stop + 1,
        forall|k: int|
            0 <= k < res.0@.len() ==> -stage_cap(q as int, n as nat, stop as nat) <= #[trigger] res.0@[k]
                <= stage_cap(q as int, n as nat, stop as nat),
        forall|k: int|
            0 <= k < res.0@.len() ==> rat_eq(
                Ratv { num: #[trigger] res.0@[k] as int, den: res.1 as int },
                b_at(stop as nat, knot(p as int, q as int, n as nat, stop as nat, k)),
            ),
{
    proof {
        lemma_fits_room(n as nat, q as int);
        assert((n + 1) * q <= 8 * ((q as int) * (q as int)) * (n + 1) && 2 * ((n + 1) * q) <= 8 * (
        (q as int) * (q as int)) * (n + 1)) by (nonlinear_arith)
            requires
                q >= 1,
                n >= 2,
        ;
    }
    let twoq: i128 = 2 * q;
    let nq: i128 = (n as i128 + 1) * q;
    let smx: i128 = nq - 2 * p;
    // Fill the buffer with order-1 kernel values at unit steps.
    let mut v: Vec<i128> = Vec::new();
    let mut i: u32 = 0;
    while i < n
        invariant
            v@.len() == i as int,
            0 <= i <= n,
            forall|k: int| 0 <= k < i as int ==> 0 <= #[trigger] v@[k] <= twoq,
            forall|k: int|
                0 <= k < i as int ==> rat_eq(
                    Ratv { num: #[trigger] v@[k] as int, den: twoq as int },
                    b_at(1, knot(p as int, q as int, n as nat, 1, k)),
                ),
        decreases n - i,
    {
        proof {
            assert((2 * (i as int) + 1 - (n as int)) * (q as int) <= (n + 1) * q && -((n + 1)
                * (q as int)) <= (2 * (i as int) + 1 - (n as int)) * (q as int))
                by (nonlinear_arith)
                requires
                    q >= 1,
                    0 <= i < n,
            ;
        }
        let zn: i128 = 2 * p + (2 * (i as i128) + 1 - n as i128) * q;
        let w = hat_num(zn, twoq);
        proof {
            assert(zn as int == knot(p as int, q as int, n as nat, 1, i as int).num && twoq as int
                == knot(p as int, q as int, n as nat, 1, i as int).den) by (nonlinear_arith)
                requires
                    zn == 2 * (p as int) + (2 * (i as int) + 1 - (n as int)) * (q as int),
                    twoq == 2 * (q as int),
                    knot(p as int, q as int, n as nat, 1, i as int).num == 2 * (p as int) + (1 - (
                    n as int) + 2 * (i as int)) * (q as int),
                    knot(p as int, q as int, n as nat, 1, i as int).den == 2 * (q as int),
            ;
        }
        v.push(w);
        i = i + 1;
    }
    // Fold: pass j blends neighbours and divides by j, exactly once per stage.
    let mut d: i128 = twoq;
    let mut j: u64 = 2;
    proof {
        lemma_stage_cap_pos(q as int, n as nat, 1);
        assert(stage_den(q as int, 1) == 2 * (q as int));
        assert(stage_cap(q as int, n as nat, 1) == 2 * (q as int));
    }
    while j <= stop as u64
        invariant
            2 <= j <= stop + 1,
            v@.len() == n - j + 2,
            d == stage_den(q as int, (j - 1) as nat),
            1 <= d <= stage_cap(q as int, n as nat, (j - 1) as nat),
            forall|k: int|
                0 <= k < v@.len() ==> -stage_cap(q as int, n as nat, (j - 1) as nat)
                    <= #[trigger] v@[k] <= stage_cap(q as int, n as nat, (j - 1) as nat),
            forall|k: int|
                0 <= k < v@.len() ==> rat_eq(
                    Ratv { num: #[trigger] v@[k] as int, den: d as int },
                    b_at((j - 1) as nat, knot(p as int, q as int, n as nat, (j - 1) as nat, k)),
                ),
        decreases stop + 1 - j,
    {
        let ghost capp = stage_cap(q as int, n as nat, (j - 1) as nat);
        let ghost capj = stage_cap(q as int, n as nat, j as nat);
        proof {
            lemma_stage_cap_monotone(q as int, n as nat, j as nat, n as nat);
            assert(capj == capp * (2 * (q as int)) * (2 * ((n as int) + 1)));
            assert(capp * (2 * (q as int)) <= capj && d * (2 * (q as int)) <= capj && capj
                <= i128::MAX) by (nonlinear_arith)
                requires
                    capj == capp * (2 * (q as int)) * (2 * ((n as int) + 1)),
                    1 <= d <= capp,
                    q >= 1,
                    n >= 2,
                    capj <= stage_cap(q as int, n as nat, n as nat) <= i128::MAX,
            ;
        }
        let dq = d * twoq;
        proof {
            assert(dq * (j as int) <= capj) by (nonlinear_arith)
                requires
                    dq == d * (2 * (q as int)),
                    1 <= d <= capp,
                    q >= 1,
                    2 <= j <= n,
                    capj == capp * (2 * (q as int)) * (2 * ((n as int) + 1)),
            ;
        }
        let dnew = dq * (j as i128);
        proof {
            assert(dq * (j as int) <= capj && dq * (j as int) >= 1 && dq * (j as int) == stage_den(
                q as int,
                j as nat,
            )) by (nonlinear_arith)
                requires
                    dq == d * (2 * (q as int)),
                    1 <= d,
                    q >= 1,
                    2 <= j <= n,
                    capj == capp * (2 * (q as int)) * (2 * ((n as int) + 1)),
                    d <= capp,
                    stage_den(q as int, j as nat) == stage_den(q as int, (j - 1) as nat) * (2 * (
                    q as int)) * (j as int),
                    d == stage_den(q as int, (j - 1) as nat),
            ;
        }
        let mut w: Vec<i128> = Vec::new();
        let mut k: u64 = 0;
        while k <= n as u64 - j
            invariant
                0 <= k <= n - j + 1,
                w@.len() == k as int,
                forall|kk: int| 0 <= kk < k as int ==> -capj <= #[trigger] w@[kk] <= capj,
                forall|kk: int|
                    0 <= kk < k as int ==> rat_eq(
                        Ratv { num: #[trigger] w@[kk] as int, den: dnew as int },
                        b_at(j as nat, knot(p as int, q as int, n as nat, j as nat, kk)),
                    ),
            decreases n - j + 1 - k,
        {
            proof {
                assert(((j as int) + 1 + (k as int)) * (2 * (q as int)) <= 2 * (((n as int) + 1) * (
                q as int)) && (k as int) * (2 * (q as int)) <= 2 * (((n as int) + 1) * (q as int)))
                    by (nonlinear_arith)
                    requires
                        q >= 1,
                        2 <= j,
                        0 <= k,
                        (j as int) + (k as int) <= n as int,
                ;
            }
            let anum: i128 = (j as i128 + 1 + k as i128) * twoq - smx;
            let bnum: i128 = smx - (k as i128) * twoq;
            let vk1 = v[(k + 1) as usize];
            let vk = v[k as usize];
            proof {
                assert(-capj <= anum * (vk1 as int) + bnum * (vk as int) <= capj && -(capj / 2)
                    <= anum * (vk1 as int) <= capj / 2 && in_i128_pair(
                    anum as int,
                    vk1 as int,
                    bnum as int,
                    vk as int,
                    capj,
                )) by (nonlinear_arith)
                    requires
                        capj == capp * (2 * (q as int)) * (2 * ((n as int) + 1)),
                        -capp <= vk1 as int <= capp,
                        -capp <= vk as int <= capp,
                        1 <= capp,
                        q >= 1,
                        n >= 2,
                        -(2 * (((n as int) + 1) * (q as int))) <= anum as int <= 2 * (((n as int)
                            + 1) * (q as int)),
                        -(2 * (((n as int) + 1) * (q as int))) <= bnum as int <= 2 * (((n as int)
                            + 1) * (q as int)),
                        capj <= i128::MAX,
                ;
            }
            let newv: i128 = anum * vk1 + bnum * vk;
            proof {
                fold_step_semantics(
                    n as nat,
                    p as int,
                    q as int,
                    j as nat,
                    k as int,
                    anum as int,
                    bnum as int,
                    vk1 as int,
                    vk as int,
                    d as int,
                    smx as int,
                );
                assert(dnew as int == (d as int) * (2 * (q as int)) * (j as int))
                    by (nonlinear_arith)
                    requires
                        dnew == dq * (j as int),
                        dq == d * (2 * (q as int)),
                ;
            }
            w.push(newv);
            k = k + 1;
        }
        v = w;
        d = dnew;
        j = j + 1;
    }
    (v, d)
}

/// Magnitude room for one blending step: both products and their sum stay
/// within the cap.
pub open spec fn in_i128_pair(a: int, v1: int, b: int, v0: int, cap: int) -> bool {
    -cap <= a * v1 <= cap && -cap <= b * v0 <= cap && -cap <= a * v1 + b * v0 <= cap && cap
        <= i128::MAX
}

/// One blending step computes the order-`j` spline value at its knot from the
/// two order-`j-1` values beside it.
proof fn fold_step_semantics(
    n: nat,
    p: int,
    q: int,
    j: nat,
    k: int,
    anum: int,
    bnum: int,
    v1: int,
    v0: int,
    d: int,
    smx: int,
)
    requires
        n >= 2,
        2 <= j <= n,
        0 <= k,
        j + k <= n,
        q >= 1,
        p >= 0,
        d >= 1,
        smx == (n + 1) * q - 2 * p,
        anum == (j + 1 + k) * (2 * q) - smx,
        bnum == smx - k * (2 * q),
        rat_eq(Ratv { num: v1, den: d }, b_at((j - 1) as nat, knot(p, q, n, (j - 1) as nat, k + 1))),
        rat_eq(Ratv { num: v0, den: d }, b_at((j - 1) as nat, knot(p, q, n, (j - 1) as nat, k))),
    ensures
        rat_eq(
            Ratv { num: anum * v1 + bnum * v0, den: d * (2 * q) * (j as int) },
            b_at(j as nat, knot(p, q, n, j as nat, k)),
        ),
{
    let t = knot(p, q, n, j, k);
    let m = (j - 1) as nat;
    let tp = rat_add(t, rat_half(1));
    let tm = rat_sub(t, rat_half(1));
    let c1 = rat_add(t, rat_half(j + 1 as int));
    let c2 = rat_sub(rat_half(j + 1 as int), t);
    let kp = knot(p, q, n, m, k + 1);
    let km = knot(p, q, n, m, k);
    let av = Ratv { num: anum, den: 2 * q };
    let bv = Ratv { num: bnum, den: 2 * q };
    let v1v = Ratv { num: v1, den: d };
    let v0v = Ratv { num: v0, den: d };
    assert(rat_wf(t) && rat_wf(tp) && rat_wf(tm) && rat_wf(c1) && rat_wf(c2) && rat_wf(kp)
        && rat_wf(km) && rat_wf(av) && rat_wf(bv) && rat_eq(tp, kp) && rat_eq(tm, km) && rat_eq(
        c1,
        av,
    ) && rat_eq(c2, bv)) by (nonlinear_arith)
        requires
            q >= 1,
            d >= 1,
            t.num == 2 * p + (j - n + 2 * k) * q,
            t.den == 2 * q,
            tp.num == t.num * 2 + 1 * t.den,
            tp.den == t.den * 2,
            tm.num == t.num * 2 + (-1) * t.den,
            tm.den == t.den * 2,
            c1.num == t.num * 2 + (j + 1) * t.den,
            c1.den == t.den * 2,
            c2.num == (j + 1) * t.den + (-t.num) * 2,
            c2.den == 2 * t.den,
            kp.num == 2 * p + ((j - 1) - n + 2 * (k + 1)) * q,
            kp.den == 2 * q,
            km.num == 2 * p + ((j - 1) - n + 2 * k) * q,
            km.den == 2 * q,
            av.num == anum && av.den == 2 * q,
            bv.num == bnum && bv.den == 2 * q,
            smx == (n + 1) * q - 2 * p,
            anum == (j + 1 + k) * (2 * q) - smx,
            bnum == smx - k * (2 * q),
    ;
    lemma_b_at_wf(m, tp);
    lemma_b_at_wf(m, tm);
    lemma_b_at_wf(m, kp);
    lemma_b_at_wf(m, km);
    lemma_b_at_cong(m, tp, kp);
    lemma_b_at_cong(m, tm, km);
    lemma_rat_eq_trans(b_at(m, tp), b_at(m, kp), v1v);
    lemma_rat_eq_trans(b_at(m, tm), b_at(m, km), v0v);
    lemma_rat_mul_cong(c1, av, b_at(m, tp), v1v);
    lemma_rat_mul_cong(c2, bv, b_at(m, tm), v0v);
    let u = rat_mul(c1, b_at(m, tp));
    let u2 = rat_mul(av, v1v);
    let w = rat_mul(c2, b_at(m, tm));
    let w2 = rat_mul(bv, v0v);
    assert(rat_wf(u) && rat_wf(u2) && rat_wf(w) && rat_wf(w2) && rat_wf(rat_add(u, w)) && rat_wf(
        rat_add(u2, w2),
    )) by (nonlinear_arith)
        requires
            c1.den >= 1 && c2.den >= 1 && av.den >= 1 && bv.den >= 1,
            b_at(m, tp).den >= 1 && b_at(m, tm).den >= 1 && v1v.den >= 1 && v0v.den >= 1,
            u.den == c1.den * b_at(m, tp).den,
            u2.den == av.den * v1v.den,
            w.den == c2.den * b_at(m, tm).den,
            w2.den == bv.den * v0v.den,
            rat_add(u, w).den == u.den * w.den,
            rat_add(u2, w2).den == u2.den * w2.den,
    ;
    lemma_rat_add_cong(u, u2, w, w2);
    lemma_rat_div_int_cong(rat_add(u, w), rat_add(u2, w2), j as int);
    assert(b_at(j as nat, t) == rat_div_int(rat_add(u, w), j as int));
    crate::rational::lemma_rat_blend(anum, bnum, v1, v0, 2 * q, d, j as int);
    let lhs = Ratv { num: anum * v1 + bnum * v0, den: d * (2 * q) * (j as int) };
    assert(rat_wf(lhs) && rat_wf(rat_div_int(rat_add(u, w), j as int)) && rat_wf(
        rat_div_int(rat_add(u2, w2), j as int),
    )) by (nonlinear_arith)
        requires
            d >= 1,
            q >= 1,
            j >= 2,
            lhs.den == d * (2 * q) * (j as int),
            rat_add(u, w).den >= 1,
            rat_add(u2, w2).den >= 1,
            rat_div_int(rat_add(u, w), j as int).den == rat_add(u, w).den * (j as int),
            rat_div_int(rat_add(u2, w2), j as int).den == rat_add(u2, w2).den * (j as int),
    ;
    lemma_rat_eq_sym(rat_div_int(rat_add(u2, w2), j as int), lhs);
    lemma_rat_eq_sym(
        rat_div_int(rat_add(u, w), j as int),
        rat_div_int(rat_add(u2, w2), j as int),
    );
    lemma_rat_eq_trans(lhs, rat_div_int(rat_add(u2, w2), j as int), rat_div_int(rat_add(u, w), j as int));
    lemma_rat_eq_trans(lhs, rat_div_int(rat_add(u, w), j as int), b_at(j as nat, t));
}


/// A first-derivative value: finite everywhere except at the jump points of
/// the order-0 box, where the one-sided derivatives disagree in sign.
#[derive(Clone, Copy, Debug, PartialEq, Eq, Structural)]
pub enum SplineDeriv {
    MinusInf,
    Fin(Rat),
    PlusInf,
}

impl View for SplineDeriv {
    type V = crate::spline_deriv::DerivVal;

    open spec fn view(&self) -> crate::spline_deriv::DerivVal {
        match self {
            SplineDeriv::MinusInf => crate::spline_deriv::DerivVal::MinusInf,
            SplineDeriv::Fin(v) => crate::spline_deriv::DerivVal::Fin(v@),
            SplineDeriv::PlusInf => crate::spline_deriv::DerivVal::PlusInf,
        }
    }
}

/// Decides the support cutoff `|x| >= (n+1)/2` for any rational point, by
/// division, so that no product can overflow whatever the point's magnitude.
fn outside_support(n: u32, x: &Rat) -> (out: bool)
    requires
        rat_wf(x@),
    ensures
        out == rat_le(rat_half(n + 1 as int), rat_abs(x@)),
        out <==> (n + 1) * x@.den <= 2 * (if x@.num < 0 {
            -x@.num
        } else {
            x@.num
        }),
{
    let mu: u128 = if x.num < 0 {
        (-(x.num + 1)) as u128 + 1
    } else {
        x.num as u128
    };
    let qu: u128 = x.den as u128;
    let e = mu / qu;
    let f = mu % qu;
    let g: u128 = if f >= qu - f {
        1
    } else {
        0
    };
    let out = e >= (n as u128 + 2 - g) / 2;
    proof {
        let m = mu as int;
        let qi = qu as int;
        let ei = e as int;
        let fi = f as int;
        let gi = g as int;
        let ni = n as int;
        assert(m == (if x@.num < 0 {
            -x@.num
        } else {
            x@.num
        }) && qi == x@.den);
        vstd::arithmetic::div_mod::lemma_fundamental_div_mod(m, qi);
        vstd::arithmetic::div_mod::lemma_fundamental_div_mod(ni + 2 - gi, 2);
        assert(out == ((n + 1) * qi <= 2 * m)) by (nonlinear_arith)
            requires
                qi >= 1,
                m >= 0,
                ni >= 0,
                m == qi * ei + fi,
                0 <= fi < qi,
                gi == (if 2 * fi >= qi {
                    1int
                } else {
                    0
                }),
                out == (ei >= (ni + 2 - gi) / 2),
                (n + 1) * qi == (ni + 1) * qi,
                ni + 2 - gi == 2 * ((ni + 2 - gi) / 2) + (ni + 2 - gi) % 2,
                0 <= (ni + 2 - gi) % 2 < 2,
        ;
        let a = rat_abs(x@);
        assert(((n + 1) * qi <= 2 * m) == rat_le(rat_half(n + 1 as int), rat_abs(x@)))
            by (nonlinear_arith)
            requires
                qi >= 1,
                qi == x@.den,
                m == (if x@.num < 0 {
                    -x@.num
                } else {
                    x@.num
                }),
                a.num == (if x@.num < 0 {
                    -x@.num
                } else {
                    x@.num
                }),
                a.den == x@.den,
                a == rat_abs(x@),
        ;
    }
    out
}

/// The cardinal B-spline `B_n(x)`, exactly.
///
/// Orders 0 and 1 always succeed, and so does every point on or beyond the
/// support boundary, where the result is exactly zero; inside the support of
/// an order `n >= 2` the result is `Some` exactly when the evaluation fits in
/// `i128` arithmetic (`fits`), and `None` otherwise.
pub fn cardinal_b_spline(n: u32, x: &Rat) -> (r: Option<Rat>)
    requires
        rat_wf(x@),
    ensures
        r is Some <==> (n <= 1 || fits(n as nat, x@.den) || rat_le(
            rat_half(n + 1 as int),
            rat_abs(x@),
        )),
        r matches Some(v) ==> rat_wf(v@) && rat_eq(v@, b_at(n as nat, x@)),
{
    if n == 0 {
        Some(box_eval(x))
    } else if n == 1 {
        let w = hat_num(x.num, x.den);
        Some(Rat { num: w, den: x.den })
    } else {
        let q = x.den;
        if outside_support(n, x) {
            proof {
                lemma_compact_support(n as nat, x@);
                lemma_b_at_wf(n as nat, x@);
                lemma_rat_eq_sym(b_at(n as nat, x@), rat_int(0));
            }
            return Some(Rat { num: 0, den: 1 });
        }
        if !fits_check(n, q) {
            return None;
        }
        proof {
            lemma_fits_room(n as nat, q as int);
            assert(0 <= (n + 1) * (q as int) && 8 * ((n + 1) * (q as int)) <= i128::MAX)
                by (nonlinear_arith)
                requires
                    q >= 1,
                    n >= 2,
                    8 * ((q as int) * (q as int)) * (n + 1) <= i128::MAX,
            ;
            assert(i128::MIN < x@.num && -x@.num <= i128::MAX && 2 * (if x@.num < 0 {
                -x@.num
            } else {
                x@.num
            }) < (n + 1) * (q as int)) by (nonlinear_arith)
                requires
                    !((n + 1) * (q as int) <= 2 * (if x@.num < 0 {
                        -x@.num
                    } else {
                        x@.num
                    })),
                    0 <= (n + 1) * (q as int),
                    8 * ((n + 1) * (q as int)) <= i128::MAX,
            ;
        }
        let p = if x.num < 0 {
            -x.num
        } else {
            x.num
        };
        let ghost xa = Ratv { num: p as int, den: q as int };
        let (v, d) = fold_stages(n, p, q, n);
        let r0 = v[0];
        proof {
            assert(rat_eq(knot(p as int, q as int, n as nat, n as nat, 0), xa) && rat_wf(
                knot(p as int, q as int, n as nat, n as nat, 0),
            )) by (nonlinear_arith)
                requires
                    q >= 1,
                    p >= 0,
                    knot(p as int, q as int, n as nat, n as nat, 0).num == 2 * (p as int) + ((
                    n as int) - (n as int) + 2 * 0) * (q as int),
                    knot(p as int, q as int, n as nat, n as nat, 0).den == 2 * (q as int),
                    xa.num == p as int,
                    xa.den == q as int,
            ;
            lemma_b_at_wf(n as nat, knot(p as int, q as int, n as nat, n as nat, 0));
            lemma_b_at_wf(n as nat, xa);
            lemma_b_at_cong(n as nat, knot(p as int, q as int, n as nat, n as nat, 0), xa);
            lemma_rat_eq_trans(
                Ratv { num: r0 as int, den: d as int },
                b_at(n as nat, knot(p as int, q as int, n as nat, n as nat, 0)),
                b_at(n as nat, xa),
            );
            if x.num < 0 {
                lemma_b_at_even(n as nat, xa);
                assert(rat_neg(xa) == x@);
                lemma_b_at_wf(n as nat, x@);
                lemma_rat_eq_trans(
                    Ratv { num: r0 as int, den: d as int },
                    b_at(n as nat, xa),
                    b_at(n as nat, x@),
                );
            }
        }
        Some(Rat { num: r0, den: d })
    }
}

/// The first derivative `B'_n(x)`, exactly.
///
/// At the two jump points of the order-0 box the one-sided derivatives
/// disagree and a signed infinity is returned, as the model prescribes.
/// Points on or beyond the support boundary always succeed with exactly zero;
/// inside the support of an order `n >= 2` the result is `Some` exactly when
/// the evaluation fits in `i128` arithmetic.
pub fn cardinal_b_spline_prime(n: u32, x: &Rat) -> (r: Option<SplineDeriv>)
    requires
        rat_wf(x@),
    ensures
        r is Some <==> (n <= 1 || fits(n as nat, x@.den) || rat_le(
            rat_half(n + 1 as int),
            rat_abs(x@),
        )),
        r matches Some(v) ==> crate::spline_deriv::deriv_wf(v@) && crate::spline_deriv::deriv_eq(
            v@,
            crate::spline_deriv::b_prime_at(n as nat, x@),
        ),
{
    if n == 0 {
        let half_den = x.den / 2;
        proof {
            vstd::arithmetic::div_mod::lemma_fundamental_div_mod(x@.den, 2);
            assert((x@.den % 2 == 0 && x@.num == x@.den / 2 <==> rat_eq(x@, rat_half(1))) && (x@.den
                % 2 == 0 && x@.num == -(x@.den / 2) <==> rat_eq(x@, rat_neg(rat_half(1)))))
                by (nonlinear_arith)
                requires
                    x@.den >= 1,
                    x@.den == 2 * (x@.den / 2) + x@.den % 2,
                    0 <= x@.den % 2 < 2,
            ;
        }
        if x.den % 2 == 0 && x.num == half_den {
            Some(SplineDeriv::PlusInf)
        } else if x.den % 2 == 0 && x.num == -half_den {
            Some(SplineDeriv::MinusInf)
        } else {
            proof {
                assert(rat_eq((Ratv { num: 0int, den: 1int }), rat_int(0)));
            }
            Some(SplineDeriv::Fin(Rat { num: 0, den: 1 }))
        }
    } else if n == 1 {
        proof {
            assert((x@.num == 0 <==> rat_eq(x@, rat_int(0))) && (x@.num == x@.den <==> rat_eq(
                x@,
                rat_int(1),
            )) && (x@.num == -x@.den <==> rat_eq(x@, rat_int(-1))) && (x@.num > x@.den <==> rat_lt(
                rat_int(1),
                x@,
            )) && (x@.num < -x@.den <==> rat_lt(x@, rat_int(-1)))) by (nonlinear_arith)
                requires
                    x@.den >= 1,
            ;
        }
        if x.num == 0 {
            Some(SplineDeriv::Fin(Rat { num: 0, den: 1 }))
        } else if x.num == x.den {
            Some(SplineDeriv::Fin(Rat { num: -1, den: 2 }))
        } else if x.num == -x.den {
            Some(SplineDeriv::Fin(Rat { num: 1, den: 2 }))
        } else if x.num > x.den || x.num < -x.den {
            // Beyond the support the slope is exactly zero.
            Some(SplineDeriv::Fin(Rat { num: 0, den: 1 }))
        } else if x.num > 0 {
            Some(SplineDeriv::Fin(Rat { num: -1, den: 1 }))
        } else {
            Some(SplineDeriv::Fin(Rat { num: 1, den: 1 }))
        }
    } else {
        let q = x.den;
        let ghost xp = rat_add(x@, rat_half(1));
        let ghost xm = rat_sub(x@, rat_half(1));
        if outside_support(n, x) {
            proof {
                assert(rat_wf(xp) && rat_wf(xm) && rat_le(rat_half(n as int), rat_abs(xp))
                    && rat_le(rat_half(n as int), rat_abs(xm))) by (nonlinear_arith)
                    requires
                        x@.den == q as int,
                        q >= 1,
                        n >= 2,
                        (n + 1) * (q as int) <= 2 * (if x@.num < 0 {
                            -x@.num
                        } else {
                            x@.num
                        }),
                        xp.num == x@.num * 2 + 1 * x@.den,
                        xp.den == x@.den * 2,
                        xm.num == x@.num * 2 + (-1) * x@.den,
                        xm.den == 2 * x@.den,
                        rat_abs(xp).den == xp.den && rat_abs(xm).den == xm.den,
                        rat_abs(xp).num == (if xp.num < 0 {
                            -xp.num
                        } else {
                            xp.num
                        }),
                        rat_abs(xm).num == (if xm.num < 0 {
                            -xm.num
                        } else {
                            xm.num
                        }),
                ;
                lemma_compact_support((n - 1) as nat, xp);
                lemma_compact_support((n - 1) as nat, xm);
                lemma_b_at_wf((n - 1) as nat, xp);
                lemma_b_at_wf((n - 1) as nat, xm);
                crate::rational::lemma_rat_sub_zero(b_at((n - 1) as nat, xp), b_at((n - 1) as nat, xm));
                assert(rat_wf(rat_sub(b_at((n - 1) as nat, xp), b_at((n - 1) as nat, xm))))
                    by (nonlinear_arith)
                    requires
                        b_at((n - 1) as nat, xp).den >= 1,
                        b_at((n - 1) as nat, xm).den >= 1,
                        rat_sub(b_at((n - 1) as nat, xp), b_at((n - 1) as nat, xm)).den == b_at(
                            (n - 1) as nat,
                            xp,
                        ).den * b_at((n - 1) as nat, xm).den,
                ;
                assert(rat_eq((Ratv { num: 0int, den: 1int }), rat_int(0)));
                lemma_rat_eq_sym(
                    rat_sub(b_at((n - 1) as nat, xp), b_at((n - 1) as nat, xm)),
                    rat_int(0),
                );
                lemma_rat_eq_trans(
                    Ratv { num: 0int, den: 1int },
                    rat_int(0),
                    rat_sub(b_at((n - 1) as nat, xp), b_at((n - 1) as nat, xm)),
                );
            }
            return Some(SplineDeriv::Fin(Rat { num: 0, den: 1 }));
        }
        if !fits_check(n, q) {
            return None;
        }
        proof {
            lemma_fits_room(n as nat, q as int);
            assert(0 <= (n + 1) * (q as int) && 8 * ((n + 1) * (q as int)) <= i128::MAX)
                by (nonlinear_arith)
                requires
                    q >= 1,
                    n >= 2,
                    8 * ((q as int) * (q as int)) * (n + 1) <= i128::MAX,
            ;
            assert(i128::MIN < x@.num && -x@.num <= i128::MAX && 2 * (if x@.num < 0 {
                -x@.num
            } else {
                x@.num
            }) < (n + 1) * (q as int)) by (nonlinear_arith)
                requires
                    !((n + 1) * (q as int) <= 2 * (if x@.num < 0 {
                        -x@.num
                    } else {
                        x@.num
                    })),
                    0 <= (n + 1) * (q as int),
                    8 * ((n + 1) * (q as int)) <= i128::MAX,
            ;
        }
        let p = if x.num < 0 {
            -x.num
        } else {
            x.num
        };
        let ghost xa = Ratv { num: p as int, den: q as int };
        let ghost ap = rat_add(xa, rat_half(1));
        let ghost am = rat_sub(xa, rat_half(1));
        let (v, d) = fold_stages(n, p, q, n - 1);
        let v0 = v[0];
        let v1 = v[1];
        let ghost m = (n - 1) as nat;
        let ghost kp = knot(p as int, q as int, n as nat, m, 1);
        let ghost km = knot(p as int, q as int, n as nat, m, 0);
        proof {
            lemma_stage_cap_monotone(q as int, n as nat, m, n as nat);
            assert(-i128::MAX <= v1 - v0 <= i128::MAX) by (nonlinear_arith)
                requires
                    -stage_cap(q as int, n as nat, m) <= v1 as int <= stage_cap(
                        q as int,
                        n as nat,
                        m,
                    ),
                    -stage_cap(q as int, n as nat, m) <= v0 as int <= stage_cap(
                        q as int,
                        n as nat,
                        m,
                    ),
                    stage_cap(q as int, n as nat, n as nat) == stage_cap(q as int, n as nat, (
                    n - 1) as nat) * (2 * (q as int)) * (2 * ((n as int) + 1)),
                    stage_cap(q as int, n as nat, n as nat) <= i128::MAX,
                    stage_cap(q as int, n as nat, m) >= 1,
                    q >= 1,
                    n >= 2,
                    m == n - 1,
            ;
        }
        let w = v1 - v0;
        proof {
            assert(rat_wf(ap) && rat_wf(am) && rat_wf(kp) && rat_wf(km) && rat_eq(kp, ap) && rat_eq(
                km,
                am,
            )) by (nonlinear_arith)
                requires
                    q >= 1,
                    p >= 0,
                    kp.num == 2 * (p as int) + (((n as int) - 1) - (n as int) + 2 * 1) * (q as int),
                    kp.den == 2 * (q as int),
                    km.num == 2 * (p as int) + (((n as int) - 1) - (n as int) + 2 * 0) * (q as int),
                    km.den == 2 * (q as int),
                    ap.num == (p as int) * 2 + 1 * (q as int),
                    ap.den == (q as int) * 2,
                    am.num == (p as int) * 2 + (-1) * (q as int),
                    am.den == 2 * (q as int),
            ;
            lemma_b_at_wf(m, kp);
            lemma_b_at_wf(m, km);
            lemma_b_at_wf(m, ap);
            lemma_b_at_wf(m, am);
            lemma_b_at_cong(m, kp, ap);
            lemma_b_at_cong(m, km, am);
            let v1v = Ratv { num: v1 as int, den: d as int };
            let v0v = Ratv { num: v0 as int, den: d as int };
            lemma_rat_eq_trans(v1v, b_at(m, kp), b_at(m, ap));
            lemma_rat_eq_trans(v0v, b_at(m, km), b_at(m, am));
            crate::rational::lemma_rat_neg_cong(v0v, b_at(m, am));
            lemma_rat_add_cong(v1v, b_at(m, ap), rat_neg(v0v), rat_neg(b_at(m, am)));
            crate::rational::lemma_rat_sub_common_den(v1 as int, v0 as int, d as int);
            lemma_rat_eq_sym(rat_sub(v1v, v0v), Ratv { num: w as int, den: d as int });
            let fxa = rat_sub(b_at(m, ap), b_at(m, am));
            assert(rat_wf(rat_sub(v1v, v0v)) && rat_wf(fxa)) by (nonlinear_arith)
                requires
                    v1v.den >= 1 && v0v.den >= 1,
                    b_at(m, ap).den >= 1 && b_at(m, am).den >= 1,
                    rat_sub(v1v, v0v).den == v1v.den * v0v.den,
                    fxa.den == b_at(m, ap).den * b_at(m, am).den,
            ;
            lemma_rat_eq_trans(Ratv { num: w as int, den: d as int }, rat_sub(v1v, v0v), fxa);
        }
        if x.num < 0 {
            let wn = -w;
            proof {
                let fxa = rat_sub(b_at(m, ap), b_at(m, am));
                crate::spline_deriv::lemma_b_prime_odd(n as nat, xa);
                assert(rat_neg(xa) == x@);
                let fx = rat_sub(
                    b_at(m, rat_add(x@, rat_half(1))),
                    b_at(m, rat_sub(x@, rat_half(1))),
                );
                assert(rat_wf(rat_add(x@, rat_half(1))) && rat_wf(rat_sub(x@, rat_half(1))))
                    by (nonlinear_arith)
                    requires
                        x@.den >= 1,
                        rat_add(x@, rat_half(1)).den == x@.den * 2,
                        rat_sub(x@, rat_half(1)).den == x@.den * 2,
                ;
                lemma_b_at_wf(m, rat_add(x@, rat_half(1)));
                lemma_b_at_wf(m, rat_sub(x@, rat_half(1)));
                assert(crate::spline_deriv::b_prime_at(n as nat, x@)
                    == crate::spline_deriv::DerivVal::Fin(fx));
                assert(rat_eq(fx, rat_neg(fxa)));
                crate::rational::lemma_rat_neg_cong(Ratv { num: w as int, den: d as int }, fxa);
                assert(rat_neg(Ratv { num: w as int, den: d as int }) == (Ratv {
                    num: wn as int,
                    den: d as int,
                }));
                assert(rat_wf(fx) && rat_wf(rat_neg(fxa))) by (nonlinear_arith)
                    requires
                        b_at(m, rat_add(x@, rat_half(1))).den >= 1,
                        b_at(m, rat_sub(x@, rat_half(1))).den >= 1,
                        fx.den == b_at(m, rat_add(x@, rat_half(1))).den * b_at(
                            m,
                            rat_sub(x@, rat_half(1)),
                        ).den,
                        rat_neg(fxa).den == fxa.den,
                        fxa.den >= 1,
                ;
                lemma_rat_eq_sym(fx, rat_neg(fxa));
                lemma_rat_eq_trans(Ratv { num: wn as int, den: d as int }, rat_neg(fxa), fx);
                lemma_rat_eq_sym(Ratv { num: wn as int, den: d as int }, fx);
                lemma_rat_eq_sym(fx, Ratv { num: wn as int, den: d as int });
            }
            Some(SplineDeriv::Fin(Rat { num: wn, den: d }))
        } else {
            proof {
                assert(xa == x@);
            }
            Some(SplineDeriv::Fin(Rat { num: w, den: d }))
        }
    }
}



/// The second derivative `B''_n(x)`, exactly.
///
/// Orders below 3 do not have a well-defined second derivative everywhere in
/// the intended sense and are refused with `None`. For `n >= 3`, points on or
/// beyond the support boundary always succeed with exactly zero; inside the
/// support the result is `Some` exactly when the evaluation fits in `i128`
/// arithmetic.
pub fn cardinal_b_spline_double_prime(n: u32, x: &Rat) -> (r: Option<Rat>)
    requires
        rat_wf(x@),
    ensures
        r is Some <==> (n >= 3 && (fits(n as nat, x@.den) || rat_le(
            rat_half(n + 1 as int),
            rat_abs(x@),
        ))),
        r matches Some(v) ==> rat_wf(v@) && rat_eq(
            v@,
            crate::spline_deriv::b_second_at(n as nat, x@),
        ),
{
    if n < 3 {
        return None;
    }
    let q = x.den;
    let ghost m = (n - 2) as nat;
    let ghost yp = rat_add(x@, rat_int(1));
    let ghost ym = rat_sub(x@, rat_int(1));
    if outside_support(n, x) {
        proof {
            assert(rat_wf(yp) && rat_wf(ym) && rat_le(rat_half((n as int) - 1), rat_abs(yp))
                && rat_le(rat_half((n as int) - 1), rat_abs(ym)) && rat_le(
                rat_half((n as int) - 1),
                rat_abs(x@),
            )) by (nonlinear_arith)
                requires
                    x@.den == q as int,
                    q >= 1,
                    n >= 3,
                    (n + 1) * (q as int) <= 2 * (if x@.num < 0 {
                        -x@.num
                    } else {
                        x@.num
                    }),
                    yp.num == x@.num * 1 + 1 * x@.den,
                    yp.den == x@.den * 1,
                    ym.num == x@.num * 1 + (-1) * x@.den,
                    ym.den == x@.den * 1,
                    rat_abs(yp).den == yp.den && rat_abs(ym).den == ym.den && rat_abs(x@).den
                        == x@.den,
                    rat_abs(yp).num == (if yp.num < 0 {
                        -yp.num
                    } else {
                        yp.num
                    }),
                    rat_abs(ym).num == (if ym.num < 0 {
                        -ym.num
                    } else {
                        ym.num
                    }),
                    rat_abs(x@).num == (if x@.num < 0 {
                        -x@.num
                    } else {
                        x@.num
                    }),
            ;
            lemma_compact_support(m, yp);
            lemma_compact_support(m, ym);
            lemma_compact_support(m, x@);
            lemma_b_at_wf(m, yp);
            lemma_b_at_wf(m, ym);
            lemma_b_at_wf(m, x@);
            crate::rational::lemma_rat_second_zero(b_at(m, yp), b_at(m, x@), b_at(m, ym));
            let comb = rat_add(
                rat_sub(b_at(m, yp), rat_mul(rat_int(2), b_at(m, x@))),
                b_at(m, ym),
            );
            assert(rat_wf(comb)) by (nonlinear_arith)
                requires
                    b_at(m, yp).den >= 1,
                    b_at(m, x@).den >= 1,
                    b_at(m, ym).den >= 1,
                    comb.den == (b_at(m, yp).den * (1 * b_at(m, x@).den)) * b_at(m, ym).den,
            ;
            assert(rat_eq((Ratv { num: 0int, den: 1int }), rat_int(0)));
            lemma_rat_eq_sym(comb, rat_int(0));
            lemma_rat_eq_trans(Ratv { num: 0int, den: 1int }, rat_int(0), comb);
        }
        return Some(Rat { num: 0, den: 1 });
    }
    if !fits_check(n, q) {
        return None;
    }
    proof {
        lemma_fits_room(n as nat, q as int);
        assert(0 <= (n + 1) * (q as int) && 8 * ((n + 1) * (q as int)) <= i128::MAX)
            by (nonlinear_arith)
            requires
                q >= 1,
                n >= 2,
                8 * ((q as int) * (q as int)) * (n + 1) <= i128::MAX,
        ;
        assert(i128::MIN < x@.num && -x@.num <= i128::MAX && 2 * (if x@.num < 0 {
            -x@.num
        } else {
            x@.num
        }) < (n + 1) * (q as int)) by (nonlinear_arith)
            requires
                !((n + 1) * (q as int) <= 2 * (if x@.num < 0 {
                    -x@.num
                } else {
                    x@.num
                })),
                0 <= (n + 1) * (q as int),
                8 * ((n + 1) * (q as int)) <= i128::MAX,
        ;
    }
    let p = if x.num < 0 {
        -x.num
    } else {
        x.num
    };
    let ghost xa = Ratv { num: p as int, den: q as int };
    let ghost ap = rat_add(xa, rat_int(1));
    let ghost am = rat_sub(xa, rat_int(1));
    let (v, d) = fold_stages(n, p, q, n - 2);
    let v0 = v[0];
    let v1 = v[1];
    let v2 = v[2];
    let ghost k2 = knot(p as int, q as int, n as nat, m, 2);
    let ghost k1 = knot(p as int, q as int, n as nat, m, 1);
    let ghost k0 = knot(p as int, q as int, n as nat, m, 0);
    proof {
        lemma_stage_cap_monotone(q as int, n as nat, m, (n - 1) as nat);
        lemma_stage_cap_monotone(q as int, n as nat, (n - 1) as nat, n as nat);
        assert(-i128::MAX <= 2 * (v1 as int) <= i128::MAX && -i128::MAX <= v2 as int - 2 * (
        v1 as int) <= i128::MAX && -i128::MAX <= v2 as int - 2 * (v1 as int) + v0 as int
            <= i128::MAX) by (nonlinear_arith)
            requires
                -stage_cap(q as int, n as nat, m) <= v2 as int <= stage_cap(q as int, n as nat, m),
                -stage_cap(q as int, n as nat, m) <= v1 as int <= stage_cap(q as int, n as nat, m),
                -stage_cap(q as int, n as nat, m) <= v0 as int <= stage_cap(q as int, n as nat, m),
                stage_cap(q as int, n as nat, (n - 1) as nat) == stage_cap(q as int, n as nat, (
                n - 2) as nat) * (2 * (q as int)) * (2 * ((n as int) + 1)),
                stage_cap(q as int, n as nat, (n - 1) as nat) <= stage_cap(
                    q as int,
                    n as nat,
                    n as nat,
                ) <= i128::MAX,
                stage_cap(q as int, n as nat, m) >= 1,
                q >= 1,
                n >= 3,
                m == n - 2,
        ;
    }
    let w = v2 - 2 * v1 + v0;
    proof {
        assert(rat_wf(ap) && rat_wf(am) && rat_wf(k2) && rat_wf(k1) && rat_wf(k0) && rat_eq(k2, ap)
            && rat_eq(k1, xa) && rat_eq(k0, am)) by (nonlinear_arith)
            requires
                q >= 1,
                p >= 0,
                k2.num == 2 * (p as int) + (((n as int) - 2) - (n as int) + 2 * 2) * (q as int),
                k1.num == 2 * (p as int) + (((n as int) - 2) - (n as int) + 2 * 1) * (q as int),
                k0.num == 2 * (p as int) + (((n as int) - 2) - (n as int) + 2 * 0) * (q as int),
                k2.den == 2 * (q as int) && k1.den == 2 * (q as int) && k0.den == 2 * (q as int),
                ap.num == (p as int) * 1 + 1 * (q as int),
                ap.den == (q as int) * 1,
                am.num == (p as int) * 1 + (-1) * (q as int),
                am.den == (q as int) * 1,
                xa.num == p as int,
                xa.den == q as int,
        ;
        lemma_b_at_wf(m, k2);
        lemma_b_at_wf(m, k1);
        lemma_b_at_wf(m, k0);
        lemma_b_at_wf(m, ap);
        lemma_b_at_wf(m, xa);
        lemma_b_at_wf(m, am);
        lemma_b_at_cong(m, k2, ap);
        lemma_b_at_cong(m, k1, xa);
        lemma_b_at_cong(m, k0, am);
        let v2v = Ratv { num: v2 as int, den: d as int };
        let v1v = Ratv { num: v1 as int, den: d as int };
        let v0v = Ratv { num: v0 as int, den: d as int };
        lemma_rat_eq_trans(v2v, b_at(m, k2), b_at(m, ap));
        lemma_rat_eq_trans(v1v, b_at(m, k1), b_at(m, xa));
        lemma_rat_eq_trans(v0v, b_at(m, k0), b_at(m, am));
        lemma_rat_mul_cong(rat_int(2), rat_int(2), v1v, b_at(m, xa));
        crate::rational::lemma_rat_neg_cong(rat_mul(rat_int(2), v1v), rat_mul(rat_int(2), b_at(m, xa)));
        let mid = rat_mul(rat_int(2), v1v);
        let mid2 = rat_mul(rat_int(2), b_at(m, xa));
        assert(rat_wf(mid) && rat_wf(mid2) && rat_wf(rat_sub(v2v, mid)) && rat_wf(
            rat_sub(b_at(m, ap), mid2),
        )) by (nonlinear_arith)
            requires
                v1v.den >= 1 && b_at(m, xa).den >= 1 && v2v.den >= 1 && b_at(m, ap).den >= 1,
                mid.den == 1 * v1v.den,
                mid2.den == 1 * b_at(m, xa).den,
                rat_sub(v2v, mid).den == v2v.den * mid.den,
                rat_sub(b_at(m, ap), mid2).den == b_at(m, ap).den * mid2.den,
        ;
        lemma_rat_add_cong(v2v, b_at(m, ap), rat_neg(mid), rat_neg(mid2));
        lemma_rat_add_cong(rat_sub(v2v, mid), rat_sub(b_at(m, ap), mid2), v0v, b_at(m, am));
        crate::rational::lemma_rat_second_common_den(v2 as int, v1 as int, v0 as int, d as int);
        let lv = rat_add(rat_sub(v2v, mid), v0v);
        let target = rat_add(rat_sub(b_at(m, ap), mid2), b_at(m, am));
        assert(rat_wf(lv) && rat_wf(target)) by (nonlinear_arith)
            requires
                rat_sub(v2v, mid).den >= 1 && rat_sub(b_at(m, ap), mid2).den >= 1,
                v0v.den >= 1 && b_at(m, am).den >= 1,
                lv.den == rat_sub(v2v, mid).den * v0v.den,
                target.den == rat_sub(b_at(m, ap), mid2).den * b_at(m, am).den,
        ;
        lemma_rat_eq_sym(lv, Ratv { num: w as int, den: d as int });
        lemma_rat_eq_trans(Ratv { num: w as int, den: d as int }, lv, target);
        if x.num < 0 {
            crate::spline_deriv::lemma_b_second_even(n as nat, xa);
            assert(rat_neg(xa) == x@);
            let tx = crate::spline_deriv::b_second_at(n as nat, x@);
            assert(tx == rat_add(
                rat_sub(b_at(m, rat_add(x@, rat_int(1))), rat_mul(rat_int(2), b_at(m, x@))),
                b_at(m, rat_sub(x@, rat_int(1))),
            ));
            assert(rat_wf(rat_add(x@, rat_int(1))) && rat_wf(rat_sub(x@, rat_int(1))) && rat_wf(x@))
                by (nonlinear_arith)
                requires
                    x@.den >= 1,
                    rat_add(x@, rat_int(1)).den == x@.den * 1,
                    rat_sub(x@, rat_int(1)).den == x@.den * 1,
            ;
            lemma_b_at_wf(m, rat_add(x@, rat_int(1)));
            lemma_b_at_wf(m, rat_sub(x@, rat_int(1)));
            lemma_b_at_wf(m, x@);
            assert(rat_wf(tx)) by (nonlinear_arith)
                requires
                    b_at(m, rat_add(x@, rat_int(1))).den >= 1,
                    b_at(m, x@).den >= 1,
                    b_at(m, rat_sub(x@, rat_int(1))).den >= 1,
                    tx.den == (b_at(m, rat_add(x@, rat_int(1))).den * (1 * b_at(m, x@).den)) * b_at(
                        m,
                        rat_sub(x@, rat_int(1)),
                    ).den,
            ;
            lemma_rat_eq_sym(tx, target);
            lemma_rat_eq_trans(Ratv { num: w as int, den: d as int }, target, tx);
        } else {
            assert(xa == x@);
        }
    }
    Some(Rat { num: w, den: d })
}

/// The forward-shifted cardinal B-spline `B_n(x - (n+1)/2)`, whose support is
/// `[0, n+1]`: a coordinate translation of `cardinal_b_spline`.
pub fn forward_cardinal_b_spline(n: u32, x: &Rat) -> (r: Option<Rat>)
    requires
        rat_wf(x@),
    ensures
        r is Some <==> (shift_in_range(n as nat, x@) && (n <= 1 || fits(n as nat, 2 * x@.den)
            || rat_le(
            rat_half(n + 1 as int),
            rat_abs(rat_sub(x@, rat_half(n + 1 as int))),
        ))),
        r matches Some(v) ==> rat_wf(v@) && rat_eq(
            v@,
            b_at(n as nat, rat_sub(x@, rat_half(n + 1 as int))),
        ),
{
    let max: i128 = i128::MAX;
    let min: i128 = i128::MIN;
    if x.num > max / 2 || x.num < min / 2 || x.den > max / 2 {
        proof {
            lemma_shift_guards(n as nat, x@);
        }
        return None;
    }
    if x.den > (max - 1) / (n as i128 + 1) {
        proof {
            lemma_shift_guards(n as nat, x@);
            crate::capacity::lemma_div_guard(x@.den, (n as int) + 1, i128::MAX - 1);
        }
        return None;
    }
    proof {
        lemma_shift_guards(n as nat, x@);
        crate::capacity::lemma_div_guard(x@.den, (n as int) + 1, i128::MAX - 1);
    }
    let nd = (n as i128 + 1) * x.den;
    let tn = 2 * x.num;
    if tn < min + nd {
        proof {
            assert(!shift_in_range(n as nat, x@)) by (nonlinear_arith)
                requires
                    x@.den >= 1,
                    nd == ((n as int) + 1) * x@.den,
                    2 * x@.num < i128::MIN + nd,
                    shift_in_range(n as nat, x@) ==> 2 * x@.num - ((n as int) + 1) * x@.den
                        >= i128::MIN,
            ;
        }
        return None;
    }
    let shifted = Rat { num: tn - nd, den: 2 * x.den };
    let ghost y = rat_sub(x@, rat_half(n + 1 as int));
    proof {
        assert(shift_in_range(n as nat, x@)) by (nonlinear_arith)
            requires
                x@.den >= 1,
                nd == ((n as int) + 1) * x@.den,
                2 * x@.num <= i128::MAX,
                2 * x@.num >= i128::MIN,
                2 * x@.den <= i128::MAX,
                nd <= i128::MAX - 1,
                2 * x@.num >= i128::MIN + nd,
                shift_in_range(n as nat, x@) == (2 * x@.num <= i128::MAX && 2 * x@.num >= i128::MIN
                    && 2 * x@.den <= i128::MAX && ((n as nat) + 1) * x@.den <= i128::MAX - 1 && 2
                    * x@.num - ((n as nat) + 1) * x@.den >= i128::MIN),
        ;
        assert(shifted@.num == y.num && shifted@.den == y.den) by (nonlinear_arith)
            requires
                shifted@.num == 2 * x@.num - nd,
                nd == ((n as int) + 1) * x@.den,
                shifted@.den == 2 * x@.den,
                y.num == x@.num * 2 + (-((n as int) + 1)) * x@.den,
                y.den == x@.den * 2,
        ;
        assert(shifted@ == y);
    }
    cardinal_b_spline(n, &shifted)
}

/// The shifted point `x - (n+1)/2` over denominator `2 * den` stays within
/// `i128`.
pub open spec fn shift_in_range(n: nat, x: Ratv) -> bool {
    2 * x.num <= i128::MAX && 2 * x.num >= i128::MIN && 2 * x.den <= i128::MAX && (n + 1) * x.den
        <= i128::MAX - 1 && 2 * x.num - (n + 1) * x.den >= i128::MIN
}

/// The executable range guards decide `shift_in_range` exactly, and within
/// range the shifted numerator cannot underflow.
proof fn lemma_shift_guards(n: nat, x: Ratv)
    requires
        rat_wf(x),
    ensures
        x.num <= i128::MAX / 2 ==> 2 * x.num <= i128::MAX,
        x.num >= i128::MIN / 2 ==> 2 * x.num >= i128::MIN,
        x.den <= i128::MAX / 2 ==> 2 * x.den <= i128::MAX,
        !(x.num <= i128::MAX / 2) ==> !shift_in_range(n, x),
        !(x.num >= i128::MIN / 2) ==> !shift_in_range(n, x),
        !(x.den <= i128::MAX / 2) ==> !shift_in_range(n, x),
        !((n + 1) * x.den <= i128::MAX - 1) ==> !shift_in_range(n, x),
        shift_in_range(n, x) ==> i128::MIN <= 2 * x.num - (n + 1) * x.den <= i128::MAX,
        x.den >= 1 ==> i128::MIN + (n + 1) * x.den > i128::MIN,
{
    assert((x.num <= i128::MAX / 2 ==> 2 * x.num <= i128::MAX) && (x.num > i128::MAX / 2 ==> 2
        * x.num > i128::MAX) && (x.num >= i128::MIN / 2 ==> 2 * x.num >= i128::MIN) && (x.num
        < i128::MIN / 2 ==> 2 * x.num < i128::MIN) && (x.den <= i128::MAX / 2 ==> 2 * x.den
        <= i128::MAX) && (x.den > i128::MAX / 2 ==> 2 * x.den > i128::MAX)) by (nonlinear_arith);
    assert((shift_in_range(n, x) ==> i128::MIN <= 2 * x.num - (n + 1) * x.den <= i128::MAX) && (
    x.den >= 1 ==> i128::MIN + (n + 1) * x.den > i128::MIN)) by (nonlinear_arith)
        requires
            x.den >= 1,
            shift_in_range(n, x) == (2 * x.num <= i128::MAX && 2 * x.num >= i128::MIN && 2 * x.den
                <= i128::MAX && (n + 1) * x.den <= i128::MAX - 1 && 2 * x.num - (n + 1) * x.den
                >= i128::MIN),
    ;
}

} // verus!
