//! Exact rational numbers.
//!
//! `Ratv` is the mathematical model: a fraction of unbounded integers with a
//! positive denominator, compared by cross-multiplication (`rat_eq`), never by
//! representation. `Rat` is its executable counterpart over `i128`.

use vstd::prelude::*;

verus! {

/// A mathematical rational number: `num / den`. Fractions are not kept
/// reduced; all predicates compare values by cross-multiplication.
pub struct Ratv {
    pub num: int,
    pub den: int,
}

/// A well-formed fraction has a positive denominator.
pub open spec fn rat_wf(a: Ratv) -> bool {
    a.den >= 1
}

/// `a` and `b` denote the same rational value.
pub open spec fn rat_eq(a: Ratv, b: Ratv) -> bool {
    a.num * b.den == b.num * a.den
}

/// `a <= b` as rational values (meaningful for well-formed fractions).
pub open spec fn rat_le(a: Ratv, b: Ratv) -> bool {
    a.num * b.den <= b.num * a.den
}

/// `a < b` as rational values (meaningful for well-formed fractions).
pub open spec fn rat_lt(a: Ratv, b: Ratv) -> bool {
    a.num * b.den < b.num * a.den
}

pub open spec fn rat_add(a: Ratv, b: Ratv) -> Ratv {
    Ratv { num: a.num * b.den + b.num * a.den, den: a.den * b.den }
}

pub open spec fn rat_neg(a: Ratv) -> Ratv {
    Ratv { num: -a.num, den: a.den }
}

pub open spec fn rat_sub(a: Ratv, b: Ratv) -> Ratv {
    rat_add(a, rat_neg(b))
}

pub open spec fn rat_mul(a: Ratv, b: Ratv) -> Ratv {
    Ratv { num: a.num * b.num, den: a.den * b.den }
}

/// Division by a positive integer `k`.
pub open spec fn rat_div_int(a: Ratv, k: int) -> Ratv {
    Ratv { num: a.num, den: a.den * k }
}

/// Absolute value.
pub open spec fn rat_abs(a: Ratv) -> Ratv {
    if a.num < 0 {
        rat_neg(a)
    } else {
        a
    }
}

/// The integer `i` as a rational.
pub open spec fn rat_int(i: int) -> Ratv {
    Ratv { num: i, den: 1 }
}

/// The half-integer `i / 2` as a rational.
pub open spec fn rat_half(i: int) -> Ratv {
    Ratv { num: i, den: 2 }
}

pub proof fn lemma_rat_eq_sym(a: Ratv, b: Ratv)
    requires
        rat_eq(a, b),
    ensures
        rat_eq(b, a),
{
}

pub proof fn lemma_rat_eq_trans(a: Ratv, b: Ratv, c: Ratv)
    by (nonlinear_arith)
    requires
        rat_wf(a),
        rat_wf(b),
        rat_wf(c),
        rat_eq(a, b),
        rat_eq(b, c),
    ensures
        rat_eq(a, c),
{
}

/// Addition respects rational equality.
pub proof fn lemma_rat_add_cong(a: Ratv, a2: Ratv, b: Ratv, b2: Ratv)
    requires
        rat_wf(a),
        rat_wf(a2),
        rat_wf(b),
        rat_wf(b2),
        rat_eq(a, a2),
        rat_eq(b, b2),
    ensures
        rat_eq(rat_add(a, b), rat_add(a2, b2)),
{
    assert((a.num * b.den) * (a2.den * b2.den) == (a2.num * b2.den) * (a.den * b.den))
        by (nonlinear_arith)
        requires
            a.num * a2.den == a2.num * a.den,
    ;
    assert((b.num * a.den) * (a2.den * b2.den) == (b2.num * a2.den) * (a.den * b.den))
        by (nonlinear_arith)
        requires
            b.num * b2.den == b2.num * b.den,
    ;
    assert((a.num * b.den + b.num * a.den) * (a2.den * b2.den) == (a.num * b.den) * (a2.den
        * b2.den) + (b.num * a.den) * (a2.den * b2.den)) by (nonlinear_arith);
    assert((a2.num * b2.den + b2.num * a2.den) * (a.den * b.den) == (a2.num * b2.den) * (a.den
        * b.den) + (b2.num * a2.den) * (a.den * b.den)) by (nonlinear_arith);
}

/// Addition of rationals is commutative.
pub proof fn lemma_rat_add_comm(a: Ratv, b: Ratv)
    by (nonlinear_arith)
    ensures
        rat_eq(rat_add(a, b), rat_add(b, a)),
{
}

/// Multiplication respects rational equality.
pub proof fn lemma_rat_mul_cong(a: Ratv, a2: Ratv, b: Ratv, b2: Ratv)
    by (nonlinear_arith)
    requires
        rat_wf(a),
        rat_wf(a2),
        rat_wf(b),
        rat_wf(b2),
        rat_eq(a, a2),
        rat_eq(b, b2),
    ensures
        rat_eq(rat_mul(a, b), rat_mul(a2, b2)),
{
}

/// Negation respects rational equality.
pub proof fn lemma_rat_neg_cong(a: Ratv, b: Ratv)
    by (nonlinear_arith)
    requires
        rat_eq(a, b),
    ensures
        rat_eq(rat_neg(a), rat_neg(b)),
{
}

/// Absolute value respects rational equality.
pub proof fn lemma_rat_abs_cong(a: Ratv, b: Ratv)
    requires
        rat_wf(a),
        rat_wf(b),
        rat_eq(a, b),
    ensures
        rat_eq(rat_abs(a), rat_abs(b)),
{
    assert(a.num < 0 <==> b.num < 0) by (nonlinear_arith)
        requires
            a.den >= 1,
            b.den >= 1,
            a.num * b.den == b.num * a.den,
    ;
    if a.num < 0 {
        lemma_rat_neg_cong(a, b);
    }
}

/// Division by a positive integer respects rational equality.
pub proof fn lemma_rat_div_int_cong(a: Ratv, a2: Ratv, k: int)
    by (nonlinear_arith)
    requires
        rat_wf(a),
        rat_wf(a2),
        k >= 1,
        rat_eq(a, a2),
    ensures
        rat_eq(rat_div_int(a, k), rat_div_int(a2, k)),
{
}

/// The order relations respect rational equality.
pub proof fn lemma_rat_cmp_cong(a: Ratv, a2: Ratv, b: Ratv, b2: Ratv)
    by (nonlinear_arith)
    requires
        rat_wf(a),
        rat_wf(a2),
        rat_wf(b),
        rat_wf(b2),
        rat_eq(a, a2),
        rat_eq(b, b2),
    ensures
        rat_le(a, b) == rat_le(a2, b2),
        rat_lt(a, b) == rat_lt(a2, b2),
{
}

/// Subtraction is antisymmetric: `a - b == -(b - a)`.
pub proof fn lemma_rat_sub_antisym(a: Ratv, b: Ratv)
    by (nonlinear_arith)
    ensures
        rat_eq(rat_sub(a, b), rat_neg(rat_sub(b, a))),
{
}

/// In a sum of three terms the two outer ones may be exchanged.
#[verifier::rlimit(100)]
pub proof fn lemma_rat_outer_exchange(a: Ratv, t: Ratv, c: Ratv)
    ensures
        rat_eq(rat_add(rat_sub(a, t), c), rat_add(rat_sub(c, t), a)),
{
    let l = rat_add(rat_sub(a, t), c);
    let r = rat_add(rat_sub(c, t), a);
    assert(l.den == r.den) by (nonlinear_arith)
        requires
            l.den == (a.den * t.den) * c.den,
            r.den == (c.den * t.den) * a.den,
    ;
    assert(l.num == r.num) by (nonlinear_arith)
        requires
            l.num == (a.num * t.den + (-t.num) * a.den) * c.den + c.num * (a.den * t.den),
            r.num == (c.num * t.den + (-t.num) * c.den) * a.den + a.num * (c.den * t.den),
    ;
    assert(rat_eq(l, r));
}

/// Scaling numerator and denominator by the same positive factor keeps the
/// value.
pub proof fn lemma_rat_scale_simple(x: int, e: int, f: int)
    requires
        e >= 1,
        f >= 1,
    ensures
        rat_eq(Ratv { num: x * e, den: e * f }, Ratv { num: x, den: f }),
{
    assert((x * e) * f == x * (e * f)) by (nonlinear_arith);
}

/// The same, for the denominator shape left by one blending step.
pub proof fn lemma_rat_scale_den(x: int, s: int, d: int, j: int)
    requires
        s >= 1,
        d >= 1,
        j >= 1,
    ensures
        rat_eq(
            Ratv { num: x * (s * d), den: ((s * d) * (s * d)) * j },
            Ratv { num: x, den: d * s * j },
        ),
{
    let e = s * d;
    assert(e >= 1 && e * j >= 1 && ((s * d) * (s * d)) * j == e * (e * j) && d * s * j == e * j)
        by (nonlinear_arith)
        requires
            e == s * d,
            s >= 1,
            d >= 1,
            j >= 1,
    ;
    lemma_rat_scale_simple(x, e, e * j);
    assert(Ratv { num: x * (s * d), den: ((s * d) * (s * d)) * j } == (Ratv {
        num: x * e,
        den: e * (e * j),
    }));
    assert(Ratv { num: x, den: d * s * j } == (Ratv { num: x, den: e * j }));
}

/// One blending step of the triangular recurrence, on numerators over common
/// denominators: coefficients over `s`, buffer values over `d`, divided by `j`.
pub proof fn lemma_rat_blend(av: int, bv: int, v1: int, v0: int, s: int, d: int, j: int)
    requires
        s >= 1,
        d >= 1,
        j >= 1,
    ensures
        rat_eq(
            rat_div_int(
                rat_add(
                    rat_mul(Ratv { num: av, den: s }, Ratv { num: v1, den: d }),
                    rat_mul(Ratv { num: bv, den: s }, Ratv { num: v0, den: d }),
                ),
                j,
            ),
            Ratv { num: av * v1 + bv * v0, den: d * s * j },
        ),
{
    let l = rat_div_int(
        rat_add(
            rat_mul(Ratv { num: av, den: s }, Ratv { num: v1, den: d }),
            rat_mul(Ratv { num: bv, den: s }, Ratv { num: v0, den: d }),
        ),
        j,
    );
    let x = av * v1 + bv * v0;
    assert(l.num == x * (s * d)) by (nonlinear_arith)
        requires
            l.num == (av * v1) * (s * d) + (bv * v0) * (s * d),
            x == av * v1 + bv * v0,
    ;
    lemma_rat_scale_den(x, s, d, j);
    assert(l == (Ratv { num: x * (s * d), den: ((s * d) * (s * d)) * j }));
}

/// The difference of two fractions over a common denominator.
pub proof fn lemma_rat_sub_common_den(v1: int, v0: int, d: int)
    by (nonlinear_arith)
    requires
        d >= 1,
    ensures
        rat_eq(
            rat_sub(Ratv { num: v1, den: d }, Ratv { num: v0, den: d }),
            Ratv { num: v1 - v0, den: d },
        ),
{
}

/// The second-order central difference over a common denominator.
pub proof fn lemma_rat_second_common_den(v2: int, v1: int, v0: int, d: int)
    requires
        d >= 1,
    ensures
        rat_eq(
            rat_add(
                rat_sub(Ratv { num: v2, den: d }, rat_mul(rat_int(2), Ratv { num: v1, den: d })),
                Ratv { num: v0, den: d },
            ),
            Ratv { num: v2 - 2 * v1 + v0, den: d },
        ),
{
    let l = rat_add(
        rat_sub(Ratv { num: v2, den: d }, rat_mul(rat_int(2), Ratv { num: v1, den: d })),
        Ratv { num: v0, den: d },
    );
    let x = v2 - 2 * v1 + v0;
    assert(l.num == x * (d * d) && l.den == (d * d) * d && d * d >= 1) by (nonlinear_arith)
        requires
            d >= 1,
            l.num == (v2 * (1 * d) + (-(2 * v1)) * d) * d + v0 * (d * (1 * d)),
            l.den == (d * (1 * d)) * d,
            x == v2 - 2 * v1 + v0,
    ;
    lemma_rat_scale_simple(x, d * d, d);
    assert(l == (Ratv { num: x * (d * d), den: (d * d) * d }));
}

/// A difference of two zero-valued fractions is zero-valued.
pub proof fn lemma_rat_sub_zero(a: Ratv, b: Ratv)
    by (nonlinear_arith)
    requires
        rat_wf(a),
        rat_wf(b),
        rat_eq(a, rat_int(0)),
        rat_eq(b, rat_int(0)),
    ensures
        rat_eq(rat_sub(a, b), rat_int(0)),
{
}

/// A second-order difference of three zero-valued fractions is zero-valued.
pub proof fn lemma_rat_second_zero(a: Ratv, b: Ratv, c: Ratv)
    by (nonlinear_arith)
    requires
        rat_wf(a),
        rat_wf(b),
        rat_wf(c),
        rat_eq(a, rat_int(0)),
        rat_eq(b, rat_int(0)),
        rat_eq(c, rat_int(0)),
    ensures
        rat_eq(rat_add(rat_sub(a, rat_mul(rat_int(2), b)), c), rat_int(0)),
{
}



/// Well-formedness of a sum.
pub proof fn lemma_rat_wf_add(a: Ratv, b: Ratv)
    by (nonlinear_arith)
    requires
        rat_wf(a),
        rat_wf(b),
    ensures
        rat_wf(rat_add(a, b)),
{
}

/// Well-formedness of a product.
pub proof fn lemma_rat_wf_mul(a: Ratv, b: Ratv)
    by (nonlinear_arith)
    requires
        rat_wf(a),
        rat_wf(b),
    ensures
        rat_wf(rat_mul(a, b)),
{
}

/// A zero-valued left summand changes nothing.
pub proof fn lemma_rat_zero_add(z: Ratv, u: Ratv)
    by (nonlinear_arith)
    requires
        rat_wf(z),
        rat_wf(u),
        rat_eq(z, rat_int(0)),
    ensures
        rat_eq(rat_add(z, u), u),
{
}

/// A zero-valued right summand changes nothing.
pub proof fn lemma_rat_add_zero(u: Ratv, z: Ratv)
    by (nonlinear_arith)
    requires
        rat_wf(u),
        rat_wf(z),
        rat_eq(z, rat_int(0)),
    ensures
        rat_eq(rat_add(u, z), u),
{
}

/// A product with a zero-valued factor is zero-valued.
pub proof fn lemma_rat_mul_zero(c: Ratv, b: Ratv)
    by (nonlinear_arith)
    requires
        rat_wf(c),
        rat_wf(b),
        rat_eq(b, rat_int(0)),
    ensures
        rat_eq(rat_mul(c, b), rat_int(0)),
{
}

/// Addition of rationals is associative on representations.
#[verifier::rlimit(100)]
pub proof fn lemma_rat_add_assoc(u: Ratv, v: Ratv, w: Ratv)
    ensures
        rat_add(rat_add(u, v), w) == rat_add(u, rat_add(v, w)),
{
    let l = rat_add(rat_add(u, v), w);
    let r = rat_add(u, rat_add(v, w));
    assert(l.num == r.num) by (nonlinear_arith)
        requires
            l.num == (u.num * v.den + v.num * u.den) * w.den + w.num * (u.den * v.den),
            r.num == u.num * (v.den * w.den) + (v.num * w.den + w.num * v.den) * u.den,
    ;
    assert(l.den == r.den) by (nonlinear_arith)
        requires
            l.den == (u.den * v.den) * w.den,
            r.den == u.den * (v.den * w.den),
    ;
}

/// Addition of rationals is commutative on representations.
pub proof fn lemma_rat_add_swap(u: Ratv, v: Ratv)
    ensures
        rat_add(u, v) == rat_add(v, u),
{
    let l = rat_add(u, v);
    let r = rat_add(v, u);
    assert(l.num == r.num && l.den == r.den) by (nonlinear_arith)
        requires
            l.num == u.num * v.den + v.num * u.den,
            l.den == u.den * v.den,
            r.num == v.num * u.den + u.num * v.den,
            r.den == v.den * u.den,
    ;
}

/// Multiplying by an integer distributes over addition.
pub proof fn lemma_rat_int_mul_add(c: int, u: Ratv, v: Ratv)
    ensures
        rat_eq(
            rat_mul(rat_int(c), rat_add(u, v)),
            rat_add(rat_mul(rat_int(c), u), rat_mul(rat_int(c), v)),
        ),
{
    let l = rat_mul(rat_int(c), rat_add(u, v));
    let r = rat_add(rat_mul(rat_int(c), u), rat_mul(rat_int(c), v));
    assert(l.num * r.den == r.num * l.den) by (nonlinear_arith)
        requires
            l.num == c * (u.num * v.den + v.num * u.den),
            l.den == 1 * (u.den * v.den),
            r.num == (c * u.num) * (1 * v.den) + (c * v.num) * (1 * u.den),
            r.den == (1 * u.den) * (1 * v.den),
    ;
}

/// An integer times an integer division by it cancels.
pub proof fn lemma_rat_mul_div_cancel(x: Ratv, n: int)
    by (nonlinear_arith)
    requires
        n >= 1,
    ensures
        rat_eq(rat_mul(rat_int(n), rat_div_int(x, n)), x),
{
}

/// Two products against a common-denominator coefficient pair combine.
pub proof fn lemma_rat_coeff_combine(an: int, bn: int, d0: int, w: Ratv)
    requires
        d0 >= 1,
        rat_wf(w),
    ensures
        rat_eq(
            rat_add(rat_mul(Ratv { num: an, den: d0 }, w), rat_mul(Ratv { num: bn, den: d0 }, w)),
            rat_mul(Ratv { num: an + bn, den: d0 }, w),
        ),
{
    let l = rat_add(rat_mul(Ratv { num: an, den: d0 }, w), rat_mul(Ratv { num: bn, den: d0 }, w));
    let r = rat_mul(Ratv { num: an + bn, den: d0 }, w);
    assert(l.num * r.den == r.num * l.den) by (nonlinear_arith)
        requires
            l.num == (an * w.num) * (d0 * w.den) + (bn * w.num) * (d0 * w.den),
            l.den == (d0 * w.den) * (d0 * w.den),
            r.num == (an + bn) * w.num,
            r.den == d0 * w.den,
    ;
}

/// A value whose `n`-fold multiple equals `n` is `1`.
pub proof fn lemma_rat_cancel_to_one(s: Ratv, n: int)
    by (nonlinear_arith)
    requires
        n >= 1,
        rat_wf(s),
        rat_eq(rat_mul(rat_int(n), s), rat_int(n)),
    ensures
        rat_eq(s, rat_int(1)),
{
}

/// An executable rational number over `i128`.
///
/// The derived `==` compares representations; value equality is `eq_rat`.
#[derive(Clone, Copy, Debug, PartialEq, Eq, Structural)]
pub struct Rat {
    pub num: i128,
    pub den: i128,
}

impl View for Rat {
    type V = Ratv;

    open spec fn view(&self) -> Ratv {
        Ratv { num: self.num as int, den: self.den as int }
    }
}

/// `x` lies within the range of `i128`.
pub open spec fn in_i128(x: int) -> bool {
    i128::MIN <= x <= i128::MAX
}

impl Rat {
    /// The fraction `num / den`.
    pub fn new(num: i128, den: i128) -> (r: Rat)
        requires
            den >= 1,
        ensures
            r@ == (Ratv { num: num as int, den: den as int }),
    {
        Rat { num, den }
    }

    /// Whether `self` and `other` denote the same rational value.
    pub fn eq_rat(&self, other: &Rat) -> (r: bool)
        requires
            rat_wf(self@),
            rat_wf(other@),
            in_i128(self@.num * other@.den),
            in_i128(other@.num * self@.den),
        ensures
            r == rat_eq(self@, other@),
    {
        self.num * other.den == other.num * self.den
    }

    /// The sum `self + other`.
    pub fn add(&self, other: &Rat) -> (r: Rat)
        requires
            rat_wf(self@),
            rat_wf(other@),
            in_i128(self@.num * other@.den),
            in_i128(other@.num * self@.den),
            in_i128(self@.num * other@.den + other@.num * self@.den),
            in_i128(self@.den * other@.den),
        ensures
            r@ == rat_add(self@, other@),
            rat_wf(r@),
    {
        proof {
            assert(self@.den * other@.den >= 1) by (nonlinear_arith)
                requires
                    self@.den >= 1,
                    other@.den >= 1,
            ;
        }
        Rat { num: self.num * other.den + other.num * self.den, den: self.den * other.den }
    }

    /// The difference `self - other`.
    pub fn sub(&self, other: &Rat) -> (r: Rat)
        requires
            rat_wf(self@),
            rat_wf(other@),
            in_i128(self@.num * other@.den),
            in_i128(other@.num * self@.den),
            in_i128(self@.num * other@.den - other@.num * self@.den),
            in_i128(self@.den * other@.den),
        ensures
            r@ == rat_sub(self@, other@),
            rat_wf(r@),
    {
        proof {
            assert(self@.den * other@.den >= 1) by (nonlinear_arith)
                requires
                    self@.den >= 1,
                    other@.den >= 1,
            ;
            assert((-other@.num) * self@.den == -(other@.num * self@.den)) by (nonlinear_arith);
        }
        Rat { num: self.num * other.den - other.num * self.den, den: self.den * other.den }
    }

    /// The product `self * other`.
    pub fn mul(&self, other: &Rat) -> (r: Rat)
        requires
            rat_wf(self@),
            rat_wf(other@),
            in_i128(self@.num * other@.num),
            in_i128(self@.den * other@.den),
        ensures
            r@ == rat_mul(self@, other@),
            rat_wf(r@),
    {
        proof {
            assert(self@.den * other@.den >= 1) by (nonlinear_arith)
                requires
                    self@.den >= 1,
                    other@.den >= 1,
            ;
        }
        Rat { num: self.num * other.num, den: self.den * other.den }
    }

    /// The numerator.
    pub fn num(&self) -> (r: i128)
        ensures
            r == self@.num,
    {
        self.num
    }

    /// The denominator.
    pub fn den(&self) -> (r: i128)
        ensures
            r == self@.den,
    {
        self.den
    }

    /// The negation `-self`.
    pub fn neg(&self) -> (r: Rat)
        requires
            rat_wf(self@),
            self@.num > i128::MIN,
        ensures
            r@ == rat_neg(self@),
            rat_wf(r@),
    {
        Rat { num: -self.num, den: self.den }
    }
}

} // verus!
