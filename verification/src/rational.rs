//! The mathematical model of the numeric domain: exact rational numbers
//! represented as fractions of unbounded integers, together with the
//! greatest-common-divisor theory used to reduce fractions and the
//! congruence lemmas that let contracts reason about values rather than
//! particular fraction representations.

use vstd::arithmetic::div_mod::{
    lemma_fundamental_div_mod, lemma_mod_multiples_basic, lemma_mod_self_0, lemma_small_mod,
};
use vstd::arithmetic::div_mod::lemma_div_nonincreasing;
use vstd::prelude::*;

verus! {

/// A rational number `num / den`. Well-formed values keep `den > 0`.
pub ghost struct Rat {
    pub num: int,
    pub den: int,
}

/// A fraction is well-formed when its denominator is positive.
pub open spec fn rat_wf(a: Rat) -> bool {
    a.den > 0
}

/// Two fractions denote the same rational number (cross multiplication).
pub open spec fn rat_eq(a: Rat, b: Rat) -> bool {
    a.num * b.den == b.num * a.den
}

pub open spec fn rat_zero() -> Rat {
    Rat { num: 0, den: 1 }
}

pub open spec fn rat_one() -> Rat {
    Rat { num: 1, den: 1 }
}

pub open spec fn rat_of_int(i: int) -> Rat {
    Rat { num: i, den: 1 }
}

pub open spec fn rat_add(a: Rat, b: Rat) -> Rat {
    Rat { num: a.num * b.den + b.num * a.den, den: a.den * b.den }
}

pub open spec fn rat_sub(a: Rat, b: Rat) -> Rat {
    Rat { num: a.num * b.den - b.num * a.den, den: a.den * b.den }
}

pub open spec fn rat_mul(a: Rat, b: Rat) -> Rat {
    Rat { num: a.num * b.num, den: a.den * b.den }
}

pub open spec fn rat_neg(a: Rat) -> Rat {
    Rat { num: -a.num, den: a.den }
}

pub open spec fn abs_int(i: int) -> int {
    if i < 0 {
        -i
    } else {
        i
    }
}

pub open spec fn rat_abs(a: Rat) -> Rat {
    Rat { num: abs_int(a.num), den: a.den }
}

/// The quotient `a / b`, with the sign moved into the numerator so that a
/// well-formed divisor with `b.num != 0` yields a well-formed result.
pub open spec fn rat_div(a: Rat, b: Rat) -> Rat {
    if b.num >= 0 {
        Rat { num: a.num * b.den, den: a.den * b.num }
    } else {
        Rat { num: -(a.num * b.den), den: -(a.den * b.num) }
    }
}

/// `a <= b`, valid for well-formed fractions.
pub open spec fn rat_le(a: Rat, b: Rat) -> bool {
    a.num * b.den <= b.num * a.den
}

/// `a < b`, valid for well-formed fractions.
pub open spec fn rat_lt(a: Rat, b: Rat) -> bool {
    a.num * b.den < b.num * a.den
}

/// Euclid's greatest common divisor.
pub open spec fn gcd(a: nat, b: nat) -> nat
    decreases b,
{
    if b == 0 {
        a
    } else {
        gcd(b, a % b)
    }
}

/// The reduced form of a fraction: both components divided by their
/// greatest common divisor, the sign kept on the numerator.
pub open spec fn rat_norm(a: Rat) -> Rat {
    let g = gcd(abs_int(a.num) as nat, a.den as nat) as int;
    if g <= 0 {
        a
    } else if a.num >= 0 {
        Rat { num: a.num / g, den: a.den / g }
    } else {
        Rat { num: -((-a.num) / g), den: a.den / g }
    }
}

/// The greatest common divisor is positive when either argument is, and it
/// divides both arguments.
pub proof fn lemma_gcd_divides(a: nat, b: nat)
    ensures
        a > 0 || b > 0 ==> gcd(a, b) > 0,
        gcd(a, b) > 0 ==> a % gcd(a, b) == 0,
        gcd(a, b) > 0 ==> b % gcd(a, b) == 0,
    decreases b,
{
    if b == 0 {
        if a > 0 {
            lemma_mod_self_0(a as int);
            lemma_small_mod(0, a);
        }
    } else {
        lemma_gcd_divides(b, a % b);
        let g: nat = gcd(b, a % b);
        assert(gcd(a, b) == g);
        assert(g > 0);
        let r: nat = a % b;
        lemma_fundamental_div_mod(a as int, b as int);
        let q: int = a as int / b as int;
        assert(a as int == b as int * q + r);
        lemma_fundamental_div_mod(b as int, g as int);
        let kb: int = b as int / g as int;
        assert(b as int == g as int * kb);
        lemma_fundamental_div_mod(r as int, g as int);
        let kr: int = r as int / g as int;
        assert(r as int == g as int * kr);
        assert(a as int == (kb * q + kr) * g as int) by (nonlinear_arith)
            requires
                a as int == b as int * q + r,
                b as int == g as int * kb,
                r as int == g as int * kr,
        ;
        lemma_mod_multiples_basic(kb * q + kr, g as int);
        assert(a % g == 0);
    }
}

/// Reduction keeps a fraction well-formed, does not change the rational
/// number it denotes, and never increases the magnitude of either component.
pub proof fn lemma_norm_properties(a: Rat)
    requires
        rat_wf(a),
    ensures
        rat_wf(rat_norm(a)),
        rat_eq(rat_norm(a), a),
        abs_int(rat_norm(a).num) <= abs_int(a.num),
        rat_norm(a).den <= a.den,
{
    let m: nat = abs_int(a.num) as nat;
    let d: nat = a.den as nat;
    lemma_gcd_divides(m, d);
    let g: int = gcd(m, d) as int;
    assert(g > 0);
    assert(m % (g as nat) == 0);
    assert(d % (g as nat) == 0);
    lemma_fundamental_div_mod(m as int, g);
    lemma_fundamental_div_mod(d as int, g);
    let mq: int = m as int / g;
    let dq: int = d as int / g;
    assert(m as int == g * mq);
    assert(d as int == g * dq);
    assert(dq > 0) by (nonlinear_arith)
        requires
            d as int == g * dq,
            d as int > 0,
            g > 0,
    ;
    assert(mq >= 0) by (nonlinear_arith)
        requires
            m as int == g * mq,
            m as int >= 0,
            g > 0,
    ;
    lemma_div_nonincreasing(m as int, g);
    lemma_div_nonincreasing(d as int, g);
    if a.num >= 0 {
        assert(rat_norm(a) == Rat { num: mq, den: dq });
        assert(mq * a.den == a.num * dq) by (nonlinear_arith)
            requires
                a.num == g * mq,
                a.den == g * dq,
        ;
    } else {
        assert(rat_norm(a) == Rat { num: -mq, den: dq });
        assert(-mq * a.den == a.num * dq) by (nonlinear_arith)
            requires
                -a.num == g * mq,
                a.den == g * dq,
        ;
    }
}

/// Denoting the same rational number is transitive for well-formed fractions.
pub proof fn lemma_rat_eq_trans(a: Rat, b: Rat, c: Rat)
    requires
        rat_wf(a),
        rat_wf(b),
        rat_wf(c),
        rat_eq(a, b),
        rat_eq(b, c),
    ensures
        rat_eq(a, c),
{
    assert(a.num * c.den == c.num * a.den) by (nonlinear_arith)
        requires
            a.num * b.den == b.num * a.den,
            b.num * c.den == c.num * b.den,
            b.den > 0,
    ;
}

/// Addition respects rational equality of its left operand.
proof fn lemma_rat_add_congruence_left(a: Rat, a2: Rat, b: Rat)
    requires
        rat_wf(a),
        rat_wf(a2),
        rat_wf(b),
        rat_eq(a, a2),
    ensures
        rat_eq(rat_add(a, b), rat_add(a2, b)),
{
    let zl: int = a2.den * b.den;
    let zr: int = a.den * b.den;
    vstd::arithmetic::mul::lemma_mul_is_distributive_add_other_way(zl, a.num * b.den, b.num * a.den);
    vstd::arithmetic::mul::lemma_mul_is_distributive_add_other_way(zr, a2.num * b.den, b.num * a2.den);
    assert((a.num * b.den) * (a2.den * b.den) == (a2.num * b.den) * (a.den * b.den))
        by (nonlinear_arith)
        requires
            a.num * a2.den == a2.num * a.den,
    ;
    assert((b.num * a.den) * (a2.den * b.den) == (b.num * a2.den) * (a.den * b.den))
        by (nonlinear_arith);
}

/// Addition is commutative on denoted values.
pub proof fn lemma_rat_add_commutes(a: Rat, b: Rat)
    ensures
        rat_eq(rat_add(a, b), rat_add(b, a)),
{
    assert((a.num * b.den + b.num * a.den) * (b.den * a.den) == (b.num * a.den + a.num * b.den) * (
    a.den * b.den)) by (nonlinear_arith);
}

/// Addition respects rational equality of its operands.
pub proof fn lemma_rat_add_congruence(a: Rat, b: Rat, a2: Rat, b2: Rat)
    requires
        rat_wf(a),
        rat_wf(b),
        rat_wf(a2),
        rat_wf(b2),
        rat_eq(a, a2),
        rat_eq(b, b2),
    ensures
        rat_eq(rat_add(a, b), rat_add(a2, b2)),
{
    lemma_rat_add_congruence_left(a, a2, b);
    lemma_rat_add_commutes(a2, b);
    lemma_rat_add_commutes(b2, a2);
    lemma_rat_add_congruence_left(b, b2, a2);
    let x = rat_add(a, b);
    let y = rat_add(a2, b);
    let z = rat_add(b, a2);
    let w = rat_add(b2, a2);
    let v = rat_add(a2, b2);
    assert(a.den * b.den > 0 && a2.den * b.den > 0 && b.den * a2.den > 0 && b2.den * a2.den > 0
        && a2.den * b2.den > 0) by (nonlinear_arith)
        requires
            a.den > 0,
            b.den > 0,
            a2.den > 0,
            b2.den > 0,
    ;
    lemma_rat_eq_trans(x, y, z);
    lemma_rat_eq_trans(x, z, w);
    lemma_rat_eq_trans(x, w, v);
}

/// Subtraction respects rational equality of its operands, because it is
/// addition of the negated right operand.
pub proof fn lemma_rat_sub_congruence(a: Rat, b: Rat, a2: Rat, b2: Rat)
    requires
        rat_wf(a),
        rat_wf(b),
        rat_wf(a2),
        rat_wf(b2),
        rat_eq(a, a2),
        rat_eq(b, b2),
    ensures
        rat_eq(rat_sub(a, b), rat_sub(a2, b2)),
{
    assert(rat_eq(rat_neg(b), rat_neg(b2))) by (nonlinear_arith)
        requires
            b.num * b2.den == b2.num * b.den,
    ;
    lemma_rat_add_congruence(a, rat_neg(b), a2, rat_neg(b2));
    assert(rat_sub(a, b).num == rat_add(a, rat_neg(b)).num) by (nonlinear_arith);
    assert(rat_sub(a2, b2).num == rat_add(a2, rat_neg(b2)).num) by (nonlinear_arith);
    assert(rat_sub(a, b) == rat_add(a, rat_neg(b)));
    assert(rat_sub(a2, b2) == rat_add(a2, rat_neg(b2)));
}

/// Multiplication respects rational equality of its operands.
pub proof fn lemma_rat_mul_congruence(a: Rat, b: Rat, a2: Rat, b2: Rat)
    requires
        rat_wf(a),
        rat_wf(b),
        rat_wf(a2),
        rat_wf(b2),
        rat_eq(a, a2),
        rat_eq(b, b2),
    ensures
        rat_eq(rat_mul(a, b), rat_mul(a2, b2)),
{
    assert((a.num * b.num) * (a2.den * b2.den) == (a2.num * b2.num) * (a.den * b.den))
        by (nonlinear_arith)
        requires
            a.num * a2.den == a2.num * a.den,
            b.num * b2.den == b2.num * b.den,
    ;
}

/// Order comparisons respect rational equality of their operands.
pub proof fn lemma_rat_le_congruence(a: Rat, b: Rat, a2: Rat, b2: Rat)
    requires
        rat_wf(a),
        rat_wf(b),
        rat_wf(a2),
        rat_wf(b2),
        rat_eq(a, a2),
        rat_eq(b, b2),
    ensures
        rat_le(a, b) <==> rat_le(a2, b2),
        rat_lt(a, b) <==> rat_lt(a2, b2),
{
    assert((a.num * b.den <= b.num * a.den <==> a2.num * b2.den <= b2.num * a2.den) && (a.num
        * b.den < b.num * a.den <==> a2.num * b2.den < b2.num * a2.den)) by (nonlinear_arith)
        requires
            a.num * a2.den == a2.num * a.den,
            b.num * b2.den == b2.num * b.den,
            a.den > 0,
            b.den > 0,
            a2.den > 0,
            b2.den > 0,
    ;
}

/// Adding a fraction that denotes zero does not change the denoted value.
pub proof fn lemma_rat_add_zero(a: Rat, z: Rat)
    requires
        rat_wf(a),
        rat_wf(z),
        rat_eq(z, rat_zero()),
    ensures
        rat_eq(rat_add(a, z), a),
        rat_eq(rat_add(z, a), a),
{
    assert((a.num * z.den + z.num * a.den) * a.den == a.num * (a.den * z.den) && (z.num * a.den
        + a.num * z.den) * a.den == a.num * (z.den * a.den)) by (nonlinear_arith)
        requires
            z.num == 0,
    ;
}

/// Multiplying by a fraction that denotes zero yields zero.
pub proof fn lemma_rat_mul_zero(z: Rat, c: Rat)
    requires
        rat_eq(z, rat_zero()),
    ensures
        rat_eq(rat_mul(z, c), rat_zero()),
        rat_eq(rat_mul(c, z), rat_zero()),
{
}

/// Multiplication is commutative on fractions.
pub proof fn lemma_rat_mul_comm(a: Rat, b: Rat)
    ensures
        rat_mul(a, b) == rat_mul(b, a),
{
    assert(a.num * b.num == b.num * a.num) by (nonlinear_arith);
    assert(a.den * b.den == b.den * a.den) by (nonlinear_arith);
}

/// Multiplication is associative on fractions.
pub proof fn lemma_rat_mul_assoc(a: Rat, b: Rat, c: Rat)
    ensures
        rat_mul(rat_mul(a, b), c) == rat_mul(a, rat_mul(b, c)),
{
    assert((a.num * b.num) * c.num == a.num * (b.num * c.num)) by (nonlinear_arith);
    assert((a.den * b.den) * c.den == a.den * (b.den * c.den)) by (nonlinear_arith);
}

/// Division respects rational equality of the dividend.
pub proof fn lemma_rat_div_congruence(x: Rat, x2: Rat, y: Rat)
    requires
        rat_wf(x),
        rat_wf(x2),
        rat_wf(y),
        y.num != 0,
        rat_eq(x, x2),
    ensures
        rat_eq(rat_div(x, y), rat_div(x2, y)),
{
    if y.num >= 0 {
        assert((x.num * y.den) * (x2.den * y.num) == (x2.num * y.den) * (x.den * y.num))
            by (nonlinear_arith)
            requires
                x.num * x2.den == x2.num * x.den,
        ;
    } else {
        assert((-(x.num * y.den)) * (-(x2.den * y.num)) == (-(x2.num * y.den)) * (-(x.den
            * y.num))) by (nonlinear_arith)
            requires
                x.num * x2.den == x2.num * x.den,
        ;
    }
}

/// Dividing a fraction by one that denotes the same value yields one.
pub proof fn lemma_rat_div_self_eq_one(w: Rat, y: Rat)
    requires
        rat_wf(w),
        rat_wf(y),
        y.num != 0,
        rat_eq(w, y),
    ensures
        rat_wf(rat_div(w, y)),
        rat_eq(rat_div(w, y), rat_one()),
{
    if y.num >= 0 {
        assert(w.den * y.num > 0) by (nonlinear_arith)
            requires
                w.den > 0,
                y.num > 0,
        ;
        assert((w.num * y.den) * 1 == 1 * (w.den * y.num)) by (nonlinear_arith)
            requires
                w.num * y.den == y.num * w.den,
        ;
    } else {
        assert(-(w.den * y.num) > 0) by (nonlinear_arith)
            requires
                w.den > 0,
                y.num < 0,
        ;
        assert((-(w.num * y.den)) * 1 == 1 * (-(w.den * y.num))) by (nonlinear_arith)
            requires
                w.num * y.den == y.num * w.den,
        ;
    }
}

/// The numerator of a sum of like-factored products gathers the common
/// factor.
proof fn lemma_distr_num(an: int, bn: int, cn: int, ad: int, bd: int, cd: int)
    ensures
        (an * cn) * (bd * cd) + (bn * cn) * (ad * cd) == (cn * cd) * (an * bd + bn * ad),
{
    assert((an * cn) * (bd * cd) == (cn * cd) * (an * bd)) by (nonlinear_arith);
    assert((bn * cn) * (ad * cd) == (cn * cd) * (bn * ad)) by (nonlinear_arith);
    vstd::arithmetic::mul::lemma_mul_is_distributive_add(cn * cd, an * bd, bn * ad);
}

/// The denominator of such a sum gathers the same way.
proof fn lemma_distr_den(ad: int, bd: int, cd: int)
    by (nonlinear_arith)
    ensures
        (ad * cd) * (bd * cd) == ((ad * bd) * cd) * cd,
{
}

/// The cross products of the gathered forms agree.
proof fn lemma_distr_cross(s: int, cn: int, cd: int, dd: int)
    by (nonlinear_arith)
    ensures
        (s * cn) * (((dd * cd)) * cd) == ((cn * cd) * s) * (dd * cd),
{
}

/// Multiplication distributes over addition up to rational equality.
pub proof fn lemma_rat_mul_distributes(a: Rat, b: Rat, c: Rat)
    requires
        rat_wf(a),
        rat_wf(b),
        rat_wf(c),
    ensures
        rat_eq(rat_mul(rat_add(a, b), c), rat_add(rat_mul(a, c), rat_mul(b, c))),
{
    let s = a.num * b.den + b.num * a.den;
    let dd = a.den * b.den;
    let l = rat_mul(rat_add(a, b), c);
    let r = rat_add(rat_mul(a, c), rat_mul(b, c));
    lemma_distr_num(a.num, b.num, c.num, a.den, b.den, c.den);
    lemma_distr_den(a.den, b.den, c.den);
    lemma_distr_cross(s, c.num, c.den, dd);
    assert(l.num == s * c.num && l.den == dd * c.den);
    assert(r.num == (c.num * c.den) * s);
    assert(r.den == (dd * c.den) * c.den);
}

/// A value that a positive factor cannot shrink is at least one:
/// `x <= s * x` with `x > 0` forces `1 <= s`.
pub proof fn lemma_rat_le_cancel(s: Rat, x: Rat)
    requires
        rat_wf(s),
        rat_wf(x),
        x.num > 0,
        rat_le(x, rat_mul(s, x)),
    ensures
        rat_le(rat_one(), s),
{
    assert(1 * s.den <= s.num * 1) by (nonlinear_arith)
        requires
            x.num * (s.den * x.den) <= (s.num * x.num) * x.den,
            x.num > 0,
            x.den > 0,
            s.den > 0,
    ;
}

/// A ratio squeezed below `((k+1)/k)^2` for `k` at least `100000` is
/// below `10001/10000`.
pub proof fn lemma_rat_ratio_upper(s: Rat, m: Rat)
    requires
        rat_wf(s),
        rat_wf(m),
        m.num >= 100000,
        rat_lt(
            rat_mul(s, rat_mul(m, m)),
            rat_mul(
                Rat { num: m.num + 1, den: m.den },
                Rat { num: m.num + 1, den: m.den },
            ),
        ),
    ensures
        rat_lt(s, Rat { num: 10001, den: 10000 }),
{
    let k = m.num;
    let dm = m.den;
    assert(s.num * (k * k) < ((k + 1) * (k + 1)) * s.den) by (nonlinear_arith)
        requires
            (s.num * (k * k)) * (dm * dm) < ((k + 1) * (k + 1)) * (s.den * (dm * dm)),
            dm > 0,
    ;
    assert(((k + 1) * (k + 1)) * 10000 <= 10001 * (k * k)) by (nonlinear_arith)
        requires
            k >= 100000,
    ;
    assert(s.num * 10000 < 10001 * s.den) by (nonlinear_arith)
        requires
            s.num * (k * k) < ((k + 1) * (k + 1)) * s.den,
            ((k + 1) * (k + 1)) * 10000 <= 10001 * (k * k),
            k > 0,
            s.den > 0,
    ;
}

/// Multiplying by `y` and dividing by `y` again returns to the start.
pub proof fn lemma_rat_div_mul_cancel(e: Rat, y: Rat)
    requires
        rat_wf(e),
        rat_wf(y),
        y.num != 0,
    ensures
        rat_wf(rat_div(rat_mul(e, y), y)),
        rat_eq(rat_div(rat_mul(e, y), y), e),
{
    if y.num >= 0 {
        assert((e.den * y.den) * y.num > 0) by (nonlinear_arith)
            requires
                e.den > 0,
                y.den > 0,
                y.num > 0,
        ;
        assert(((e.num * y.num) * y.den) * e.den == e.num * ((e.den * y.den) * y.num))
            by (nonlinear_arith);
    } else {
        assert(-((e.den * y.den) * y.num) > 0) by (nonlinear_arith)
            requires
                e.den > 0,
                y.den > 0,
                y.num < 0,
        ;
        assert((-((e.num * y.num) * y.den)) * e.den == e.num * (-((e.den * y.den) * y.num)))
            by (nonlinear_arith);
    }
}

/// Scaling a quotient is dividing the scaled dividend.
pub proof fn lemma_rat_mul_div(x: Rat, y: Rat, z: Rat)
    ensures
        rat_mul(rat_div(x, y), z) == rat_div(rat_mul(x, z), y),
{
    if y.num >= 0 {
        assert((x.num * y.den) * z.num == (x.num * z.num) * y.den) by (nonlinear_arith);
        assert((x.den * y.num) * z.den == (x.den * z.den) * y.num) by (nonlinear_arith);
    } else {
        assert((-(x.num * y.den)) * z.num == -((x.num * z.num) * y.den)) by (nonlinear_arith);
        assert((-(x.den * y.num)) * z.den == -((x.den * z.den) * y.num)) by (nonlinear_arith);
    }
}

/// Negation respects rational equality.
pub proof fn lemma_rat_neg_congruence(a: Rat, b: Rat)
    requires
        rat_eq(a, b),
    ensures
        rat_eq(rat_neg(a), rat_neg(b)),
{
    assert(-a.num * b.den == -b.num * a.den) by (nonlinear_arith)
        requires
            a.num * b.den == b.num * a.den,
    ;
}

/// The product of two integers bounded in magnitude by `m` is bounded in
/// magnitude by `m * m`.
pub proof fn lemma_prod_bound(x: int, y: int, m: int)
    by (nonlinear_arith)
    requires
        -m <= x <= m,
        -m <= y <= m,
        0 <= m,
    ensures
        -(m * m) <= x * y <= m * m,
{
}

/// Multiplying by a fraction that denotes one does not change the value.
pub proof fn lemma_rat_mul_one(o: Rat, c: Rat)
    requires
        rat_wf(o),
        rat_wf(c),
        rat_eq(o, rat_one()),
    ensures
        rat_eq(rat_mul(o, c), c),
        rat_eq(rat_mul(c, o), c),
{
    assert(o.num * 1 == 1 * o.den);
    assert(o.num == o.den);
    assert((o.num * c.num) * c.den == c.num * (o.den * c.den) && (c.num * o.num) * c.den == c.num
        * (c.den * o.den)) by (nonlinear_arith)
        requires
            o.num == o.den,
    ;
}

} // verus!
