//! Exact rational arithmetic.
//!
//! `Rat` is the mathematical (specification-level) rational `n / d`; `Ratio`
//! is its executable counterpart over `u128` components.  The executable
//! operations compute exactly the numerator and denominator that the
//! specification functions describe and return `None` when a component would
//! not fit in a `u128`; `ratio_norm` reduces a rational to lowest terms by
//! the greatest common divisor, preserving its value.

use vstd::prelude::*;

verus! {

/// A rational number at the specification level: the value `n / d`.
pub ghost struct Rat {
    pub n: int,
    pub d: int,
}

pub open spec fn rat(n: int, d: int) -> Rat {
    Rat { n, d }
}

pub open spec fn rat_zero() -> Rat {
    Rat { n: 0, d: 1 }
}

pub open spec fn rat_one() -> Rat {
    Rat { n: 1, d: 1 }
}

/// Well-formed: a positive denominator and a non-negative numerator.
pub open spec fn rat_wf(a: Rat) -> bool {
    a.d > 0 && a.n >= 0
}

/// Value equality by cross multiplication.
pub open spec fn rat_eqv(a: Rat, b: Rat) -> bool {
    a.n * b.d == b.n * a.d
}

/// `a <= b`, by cross multiplication (meaningful for positive denominators).
pub open spec fn rat_le(a: Rat, b: Rat) -> bool {
    a.n * b.d <= b.n * a.d
}

/// `a < b`, by cross multiplication (meaningful for positive denominators).
pub open spec fn rat_lt(a: Rat, b: Rat) -> bool {
    a.n * b.d < b.n * a.d
}

pub open spec fn rat_add(a: Rat, b: Rat) -> Rat {
    Rat { n: a.n * b.d + b.n * a.d, d: a.d * b.d }
}

pub open spec fn rat_mul(a: Rat, b: Rat) -> Rat {
    Rat { n: a.n * b.n, d: a.d * b.d }
}

pub open spec fn rat_div(a: Rat, b: Rat) -> Rat {
    Rat { n: a.n * b.d, d: a.d * b.n }
}

/// The reciprocal of `a`.
pub open spec fn rat_inv(a: Rat) -> Rat {
    Rat { n: a.d, d: a.n }
}

/// Both components fit the executable representation.
pub open spec fn rat_fits(a: Rat) -> bool {
    0 <= a.n <= u128::MAX && 0 <= a.d <= u128::MAX
}

/// The executable rational `num / den`.
#[derive(Clone, Copy, PartialEq, Eq, Structural, Debug)]
pub struct Ratio {
    pub num: u128,
    pub den: u128,
}

impl View for Ratio {
    type V = Rat;

    open spec fn view(&self) -> Rat {
        Rat { n: self.num as int, d: self.den as int }
    }
}

pub fn ratio_one() -> (r: Ratio)
    ensures
        r@ == rat_one(),
{
    Ratio { num: 1, den: 1 }
}

/// Exact sum; `None` exactly when a component of the sum does not fit.
pub fn ratio_add(a: Ratio, b: Ratio) -> (r: Option<Ratio>)
    ensures
        r is Some <==> rat_fits(rat_add(a@, b@)),
        r matches Some(s) ==> s@ == rat_add(a@, b@),
{
    proof {
        assert(a.num as int * b.den as int >= 0) by (nonlinear_arith);
        assert(b.num as int * a.den as int >= 0) by (nonlinear_arith);
    }
    let p1 = match a.num.checked_mul(b.den) {
        Some(v) => v,
        None => {
            return None;
        },
    };
    let p2 = match b.num.checked_mul(a.den) {
        Some(v) => v,
        None => {
            return None;
        },
    };
    let n = match p1.checked_add(p2) {
        Some(v) => v,
        None => {
            return None;
        },
    };
    let d = match a.den.checked_mul(b.den) {
        Some(v) => v,
        None => {
            return None;
        },
    };
    Some(Ratio { num: n, den: d })
}

/// Exact product; `None` exactly when a component does not fit.
pub fn ratio_mul(a: Ratio, b: Ratio) -> (r: Option<Ratio>)
    ensures
        r is Some <==> rat_fits(rat_mul(a@, b@)),
        r matches Some(s) ==> s@ == rat_mul(a@, b@),
{
    let n = match a.num.checked_mul(b.num) {
        Some(v) => v,
        None => {
            return None;
        },
    };
    let d = match a.den.checked_mul(b.den) {
        Some(v) => v,
        None => {
            return None;
        },
    };
    Some(Ratio { num: n, den: d })
}

/// Exact quotient; `None` exactly when a component does not fit.
pub fn ratio_div(a: Ratio, b: Ratio) -> (r: Option<Ratio>)
    ensures
        r is Some <==> rat_fits(rat_div(a@, b@)),
        r matches Some(s) ==> s@ == rat_div(a@, b@),
{
    let n = match a.num.checked_mul(b.den) {
        Some(v) => v,
        None => {
            return None;
        },
    };
    let d = match a.den.checked_mul(b.num) {
        Some(v) => v,
        None => {
            return None;
        },
    };
    Some(Ratio { num: n, den: d })
}

/// Exact comparison; `None` exactly when a cross product does not fit.
pub fn ratio_lt(a: Ratio, b: Ratio) -> (r: Option<bool>)
    ensures
        r matches Some(v) ==> v == rat_lt(a@, b@),
        r is Some <==> (a@.n * b@.d <= u128::MAX && b@.n * a@.d <= u128::MAX),
{
    let l = match a.num.checked_mul(b.den) {
        Some(v) => v,
        None => {
            return None;
        },
    };
    let g = match b.num.checked_mul(a.den) {
        Some(v) => v,
        None => {
            return None;
        },
    };
    Some(l < g)
}

/// Exact value equality test; `None` exactly when a cross product does not fit.
pub fn ratio_eqv(a: Ratio, b: Ratio) -> (r: Option<bool>)
    ensures
        r matches Some(v) ==> v == rat_eqv(a@, b@),
        r is Some <==> (a@.n * b@.d <= u128::MAX && b@.n * a@.d <= u128::MAX),
{
    let l = match a.num.checked_mul(b.den) {
        Some(v) => v,
        None => {
            return None;
        },
    };
    let g = match b.num.checked_mul(a.den) {
        Some(v) => v,
        None => {
            return None;
        },
    };
    Some(l == g)
}

/// The greatest common divisor of two non-negative integers, by Euclid;
/// 0 on negative arguments.
pub open spec fn gcd_int(a: int, b: int) -> int
    decreases b,
{
    if a < 0 || b < 0 {
        0
    } else if b == 0 {
        a
    } else {
        gcd_int(b, a % b)
    }
}

/// `x` is a multiple of `d`.
pub open spec fn divide_evenly(d: int, x: int) -> bool {
    exists|k: int| x == #[trigger] (d * k)
}

/// The greatest common divisor divides both arguments and is positive as
/// soon as the first argument is.
pub proof fn lemma_gcd_divides(a: int, b: int)
    requires
        a >= 0,
        b >= 0,
    ensures
        divide_evenly(gcd_int(a, b), a),
        divide_evenly(gcd_int(a, b), b),
        a > 0 ==> gcd_int(a, b) >= 1,
        gcd_int(a, b) >= 0,
    decreases b,
{
    let g = gcd_int(a, b);
    if b == 0 {
        assert(a == a * 1);
        assert(0 == a * 0);
    } else {
        lemma_gcd_divides(b, a % b);
        let k1 = choose|k: int| b == #[trigger] (g * k);
        let k2 = choose|k: int| (a % b) == #[trigger] (g * k);
        vstd::arithmetic::div_mod::lemma_fundamental_div_mod(a, b);
        assert(a == g * (k1 * (a / b) + k2)) by (nonlinear_arith)
            requires
                a == b * (a / b) + (a % b),
                b == g * k1,
                (a % b) == g * k2,
        ;
    }
}

/// `a` in lowest terms: both components divided by their greatest common
/// divisor; unchanged when no positive divisor exists.
pub open spec fn rat_norm(a: Rat) -> Rat {
    let g = gcd_int(a.n, a.d);
    if g >= 1 {
        Rat { n: a.n / g, d: a.d / g }
    } else {
        a
    }
}

/// Reduction preserves the value and the signs of the components, and never
/// grows them.
pub proof fn lemma_rat_norm_eqv(a: Rat)
    ensures
        rat_eqv(rat_norm(a), a),
        a.n >= 0 ==> rat_norm(a).n >= 0,
        a.n > 0 ==> rat_norm(a).n > 0,
        a.d >= 0 ==> rat_norm(a).d >= 0,
        a.d > 0 ==> rat_norm(a).d > 0,
        a.d != 0 ==> rat_norm(a).d != 0,
        a.n >= 0 && a.d >= 0 ==> rat_norm(a).n <= a.n && rat_norm(a).d <= a.d,
{
    let g = gcd_int(a.n, a.d);
    if g >= 1 {
        assert(a.n >= 0 && a.d >= 0);
        lemma_gcd_divides(a.n, a.d);
        let k1 = choose|k: int| a.n == #[trigger] (g * k);
        let k2 = choose|k: int| a.d == #[trigger] (g * k);
        vstd::arithmetic::div_mod::lemma_div_multiples_vanish(k1, g);
        vstd::arithmetic::div_mod::lemma_div_multiples_vanish(k2, g);
        assert(a.n / g == k1 && a.d / g == k2);
        assert(k1 * a.d == a.n * k2) by (nonlinear_arith)
            requires
                a.n == g * k1,
                a.d == g * k2,
        ;
        assert(k1 >= 0 && k2 >= 0 && (a.n > 0 ==> k1 > 0) && (a.d > 0 ==> k2 > 0) && k1 <= a.n
            && k2 <= a.d) by (nonlinear_arith)
            requires
                a.n == g * k1,
                a.d == g * k2,
                a.n >= 0,
                a.d >= 0,
                g >= 1,
        ;
    }
}

fn gcd_u128(a: u128, b: u128) -> (g: u128)
    ensures
        g as int == gcd_int(a as int, b as int),
{
    let mut x = a;
    let mut y = b;
    while y > 0
        invariant
            gcd_int(x as int, y as int) == gcd_int(a as int, b as int),
        decreases y,
    {
        let r = x % y;
        x = y;
        y = r;
    }
    x
}

/// Reduces a rational to lowest terms; the value is unchanged.
pub fn ratio_norm(a: Ratio) -> (r: Ratio)
    ensures
        r@ == rat_norm(a@),
{
    let g = gcd_u128(a.num, a.den);
    if g >= 1 {
        Ratio { num: a.num / g, den: a.den / g }
    } else {
        a
    }
}

/// Value equality of rationals is transitive when the middle denominator is
/// nonzero.
pub proof fn lemma_rat_eqv_trans(a: Rat, b: Rat, c: Rat)
    requires
        rat_eqv(a, b),
        rat_eqv(b, c),
        b.d != 0,
    ensures
        rat_eqv(a, c),
{
    assert(a.n * c.d * b.d == c.n * a.d * b.d) by (nonlinear_arith)
        requires
            a.n * b.d == b.n * a.d,
            b.n * c.d == c.n * b.d,
    ;
    assert(a.n * c.d == c.n * a.d) by (nonlinear_arith)
        requires
            a.n * c.d * b.d == c.n * a.d * b.d,
            b.d != 0,
    ;
}

/// Adding the same rational to value-equal rationals gives value-equal sums.
pub proof fn lemma_rat_add_congruence(a: Rat, b: Rat, c: Rat)
    requires
        rat_eqv(a, b),
    ensures
        rat_eqv(rat_add(a, c), rat_add(b, c)),
{
    let l = rat_add(a, c);
    let r = rat_add(b, c);
    vstd::arithmetic::mul::lemma_mul_is_distributive_add_other_way(b.d * c.d, a.n * c.d, c.n * a.d);
    vstd::arithmetic::mul::lemma_mul_is_distributive_add_other_way(a.d * c.d, b.n * c.d, c.n * b.d);
    assert((a.n * c.d) * (b.d * c.d) == (a.n * b.d) * (c.d * c.d)) by (nonlinear_arith);
    assert((b.n * c.d) * (a.d * c.d) == (b.n * a.d) * (c.d * c.d)) by (nonlinear_arith);
    assert((c.n * a.d) * (b.d * c.d) == (c.n * b.d) * (a.d * c.d)) by (nonlinear_arith);
    assert((a.n * c.d + c.n * a.d) * (b.d * c.d) == (b.n * c.d + c.n * b.d) * (a.d * c.d));
    assert(l.n * r.d == r.n * l.d);
}

/// The mirrored congruence: the varying summand stands second.
pub proof fn lemma_rat_add_congruence_right(c: Rat, a: Rat, b: Rat)
    requires
        rat_eqv(a, b),
    ensures
        rat_eqv(rat_add(c, a), rat_add(c, b)),
{
    let l = rat_add(c, a);
    let r = rat_add(c, b);
    vstd::arithmetic::mul::lemma_mul_is_distributive_add_other_way(c.d * b.d, c.n * a.d, a.n * c.d);
    vstd::arithmetic::mul::lemma_mul_is_distributive_add_other_way(c.d * a.d, c.n * b.d, b.n * c.d);
    assert((c.n * a.d) * (c.d * b.d) == (c.n * b.d) * (c.d * a.d)) by (nonlinear_arith);
    assert((a.n * c.d) * (c.d * b.d) == (a.n * b.d) * (c.d * c.d)) by (nonlinear_arith);
    assert((b.n * c.d) * (c.d * a.d) == (b.n * a.d) * (c.d * c.d)) by (nonlinear_arith);
    assert((c.n * a.d + a.n * c.d) * (c.d * b.d) == (c.n * b.d + b.n * c.d) * (c.d * a.d));
    assert(l.n * r.d == r.n * l.d);
}

/// Multiplying value-equal rationals gives value-equal products.
pub proof fn lemma_rat_mul_congruence(a: Rat, a2: Rat, b: Rat, b2: Rat)
    requires
        rat_eqv(a, a2),
        rat_eqv(b, b2),
    ensures
        rat_eqv(rat_mul(a, b), rat_mul(a2, b2)),
{
    assert((a.n * b.n) * (a2.d * b2.d) == (a.n * a2.d) * (b.n * b2.d)) by (nonlinear_arith);
    assert((a2.n * b2.n) * (a.d * b.d) == (a2.n * a.d) * (b2.n * b.d)) by (nonlinear_arith);
    assert((a.n * a2.d) * (b.n * b2.d) == (a2.n * a.d) * (b2.n * b.d));
}

/// Dividing value-equal rationals gives value-equal quotients.
pub proof fn lemma_rat_div_congruence(a: Rat, a2: Rat, b: Rat, b2: Rat)
    requires
        rat_eqv(a, a2),
        rat_eqv(b, b2),
    ensures
        rat_eqv(rat_div(a, b), rat_div(a2, b2)),
{
    assert((a.n * b.d) * (a2.d * b2.n) == (a.n * a2.d) * (b2.n * b.d)) by (nonlinear_arith);
    assert((a2.n * b2.d) * (a.d * b.n) == (a2.n * a.d) * (b.n * b2.d)) by (nonlinear_arith);
    assert((a.n * a2.d) * (b2.n * b.d) == (a2.n * a.d) * (b.n * b2.d));
}

/// The common factor of a quotient of two products cancels.
pub proof fn lemma_rat_div_mul_cancel(x: Rat, y: Rat, n: Rat)
    ensures
        rat_eqv(rat_div(rat_mul(x, n), rat_mul(y, n)), rat_div(x, y)),
{
    assert((x.n * n.n) * (y.d * n.d) == (x.n * y.d) * (n.n * n.d)) by (nonlinear_arith);
    assert((x.d * n.d) * (y.n * n.n) == (x.d * y.n) * (n.n * n.d)) by (nonlinear_arith);
    assert(((x.n * y.d) * (n.n * n.d)) * (x.d * y.n) == (x.n * y.d) * ((x.d * y.n) * (n.n * n.d)))
        by (nonlinear_arith);
}

/// The common divisor of a quotient of two quotients cancels.
pub proof fn lemma_rat_div_div_cancel(x: Rat, y: Rat, n: Rat)
    ensures
        rat_eqv(rat_div(rat_div(x, n), rat_div(y, n)), rat_div(x, y)),
{
    assert((x.n * n.d) * (y.d * n.n) == (x.n * y.d) * (n.n * n.d)) by (nonlinear_arith);
    assert((x.d * n.n) * (y.n * n.d) == (x.d * y.n) * (n.n * n.d)) by (nonlinear_arith);
    assert(((x.n * y.d) * (n.n * n.d)) * (x.d * y.n) == (x.n * y.d) * ((x.d * y.n) * (n.n * n.d)))
        by (nonlinear_arith);
}

/// Dividing a product by its factor recovers the other factor, as a value.
pub proof fn lemma_rat_mul_div_cancel(x: Rat, n: Rat)
    ensures
        rat_eqv(rat_div(rat_mul(x, n), n), x),
{
    assert(((x.n * n.n) * n.d) * x.d == x.n * ((x.d * n.d) * n.n)) by (nonlinear_arith);
}

/// Multiplying a quotient by its divisor recovers the dividend, as a value.
pub proof fn lemma_rat_div_mul_undo(x: Rat, n: Rat)
    ensures
        rat_eqv(rat_mul(rat_div(x, n), n), x),
{
    assert(((x.n * n.d) * n.n) * x.d == x.n * ((x.d * n.n) * n.d)) by (nonlinear_arith);
}

} // verus!
