//! The element model and the pair transformer.
//!
//! An `Element` is one component of a ladder: a series reactance, a shunt
//! susceptance, a terminating load, or a transmission-line (unit-element)
//! segment, each carrying one normalized magnitude.  The pair transformer
//! exchanges the position of a line and an adjacent reactive element while
//! preserving the two-port electrical behavior, by one of four closed-form
//! identities parameterized by a scale factor `n`.

use crate::rat::{
    lemma_rat_add_congruence_right, lemma_rat_div_congruence, lemma_rat_div_div_cancel,
    lemma_rat_div_mul_cancel, lemma_rat_div_mul_undo, lemma_rat_eqv_trans, lemma_rat_mul_congruence,
    lemma_rat_mul_div_cancel, lemma_rat_norm_eqv, rat_add, rat_div, rat_eqv, rat_fits, rat_mul,
    rat_norm, rat_one, rat_wf, ratio_add, ratio_div, ratio_mul, ratio_norm, ratio_one, Rat, Ratio,
};
use vstd::prelude::*;

verus! {

/// Specification-level element: a tag and a rational magnitude.
pub ghost enum El {
    Series(Rat),
    Shunt(Rat),
    Load(Rat),
    Line(Rat),
}

/// The magnitude carried by an element, regardless of its tag.
pub open spec fn mag(e: El) -> Rat {
    match e {
        El::Series(v) => v,
        El::Shunt(v) => v,
        El::Load(v) => v,
        El::Line(v) => v,
    }
}

/// A reactive element: series or shunt.
pub open spec fn reactive(e: El) -> bool {
    e is Series || e is Shunt
}

/// Executable element.
#[derive(Clone, Copy, PartialEq, Eq, Structural, Debug)]
pub enum Element {
    Series(Ratio),
    Shunt(Ratio),
    Load(Ratio),
    Line(Ratio),
}

impl View for Element {
    type V = El;

    open spec fn view(&self) -> El {
        match self {
            Element::Series(v) => El::Series(v@),
            Element::Shunt(v) => El::Shunt(v@),
            Element::Load(v) => El::Load(v@),
            Element::Line(v) => El::Line(v@),
        }
    }
}

/// The view of a whole ladder.
pub open spec fn ladder_view(s: Seq<Element>) -> Seq<El> {
    Seq::new(s.len(), |k: int| s[k]@)
}

pub fn magnitude(e: &Element) -> (r: Ratio)
    ensures
        r@ == mag(e@),
{
    match e {
        Element::Series(v) => *v,
        Element::Shunt(v) => *v,
        Element::Load(v) => *v,
        Element::Line(v) => *v,
    }
}

/// The scale factor of a unit-element identity, in lowest terms:
/// `n = 1 + x / y`.
pub open spec fn unit_scale(x: Rat, y: Rat) -> Rat {
    rat_norm(rat_add(rat_one(), rat_norm(rat_div(x, y))))
}

/// What the pair transformer returns: one of four mutually exclusive
/// equivalence identities on a (line, reactive) or (reactive, line) pair,
/// and the defensive identity on any other pairing.
pub open spec fn pair_spec(a: El, b: El) -> (El, El) {
    match (a, b) {
        (El::Line(x), El::Series(y)) => {
            let n = unit_scale(x, y);
            (El::Shunt(rat_norm(rat_mul(x, n))), El::Line(rat_norm(rat_mul(y, n))))
        },
        (El::Line(x), El::Shunt(y)) => {
            let n = unit_scale(y, x);
            (El::Series(rat_norm(rat_div(x, n))), El::Line(rat_norm(rat_div(y, n))))
        },
        (El::Shunt(x), El::Line(y)) => {
            let n = unit_scale(x, y);
            (El::Line(rat_norm(rat_div(x, n))), El::Series(rat_norm(rat_div(y, n))))
        },
        (El::Series(x), El::Line(y)) => {
            let n = unit_scale(y, x);
            (El::Line(rat_norm(rat_mul(x, n))), El::Shunt(rat_norm(rat_mul(y, n))))
        },
        _ => (a, b),
    }
}

/// The scale-factor computation fits the machine representation.
pub open spec fn scale_fits(x: Rat, y: Rat) -> bool {
    rat_fits(rat_div(x, y)) && rat_fits(rat_add(rat_one(), rat_norm(rat_div(x, y))))
}

/// The whole pair transformation fits the machine representation: the scale
/// factor and both transformed magnitudes have representable components.
pub open spec fn pair_fits(a: El, b: El) -> bool {
    match (a, b) {
        (El::Line(x), El::Series(y)) => scale_fits(x, y) && rat_fits(rat_mul(x, unit_scale(x, y)))
            && rat_fits(rat_mul(y, unit_scale(x, y))),
        (El::Line(x), El::Shunt(y)) => scale_fits(y, x) && rat_fits(rat_div(x, unit_scale(y, x)))
            && rat_fits(rat_div(y, unit_scale(y, x))),
        (El::Shunt(x), El::Line(y)) => scale_fits(x, y) && rat_fits(rat_div(x, unit_scale(x, y)))
            && rat_fits(rat_div(y, unit_scale(x, y))),
        (El::Series(x), El::Line(y)) => scale_fits(y, x) && rat_fits(rat_mul(x, unit_scale(y, x)))
            && rat_fits(rat_mul(y, unit_scale(y, x))),
        _ => true,
    }
}

/// The executable scale factor `1 + x / y`.
fn unit_scale_exec(x: Ratio, y: Ratio) -> (r: Option<Ratio>)
    ensures
        r matches Some(n) ==> n@ == unit_scale(x@, y@),
        r is Some <==> scale_fits(x@, y@),
{
    let q = match ratio_div(x, y) {
        Some(v) => v,
        None => {
            return None;
        },
    };
    let n = match ratio_add(ratio_one(), ratio_norm(q)) {
        Some(v) => v,
        None => {
            return None;
        },
    };
    Some(ratio_norm(n))
}

/// Applies the pair transformer.  Returns `None` exactly when a component of
/// an intermediate or final magnitude does not fit the machine representation.
pub fn process_pair(a: Element, b: Element) -> (r: Option<(Element, Element)>)
    ensures
        r matches Some(p) ==> (p.0@, p.1@) == pair_spec(a@, b@),
        r is Some <==> pair_fits(a@, b@),
{
    match (a, b) {
        (Element::Line(x), Element::Series(y)) => {
            let n = match unit_scale_exec(x, y) {
                Some(v) => v,
                None => {
                    return None;
                },
            };
            let u = match ratio_mul(x, n) {
                Some(v) => v,
                None => {
                    return None;
                },
            };
            let v = match ratio_mul(y, n) {
                Some(v) => v,
                None => {
                    return None;
                },
            };
            Some((Element::Shunt(ratio_norm(u)), Element::Line(ratio_norm(v))))
        },
        (Element::Line(x), Element::Shunt(y)) => {
            let n = match unit_scale_exec(y, x) {
                Some(v) => v,
                None => {
                    return None;
                },
            };
            let u = match ratio_div(x, n) {
                Some(v) => v,
                None => {
                    return None;
                },
            };
            let v = match ratio_div(y, n) {
                Some(v) => v,
                None => {
                    return None;
                },
            };
            Some((Element::Series(ratio_norm(u)), Element::Line(ratio_norm(v))))
        },
        (Element::Shunt(x), Element::Line(y)) => {
            let n = match unit_scale_exec(x, y) {
                Some(v) => v,
                None => {
                    return None;
                },
            };
            let u = match ratio_div(x, n) {
                Some(v) => v,
                None => {
                    return None;
                },
            };
            let v = match ratio_div(y, n) {
                Some(v) => v,
                None => {
                    return None;
                },
            };
            Some((Element::Line(ratio_norm(u)), Element::Series(ratio_norm(v))))
        },
        (Element::Series(x), Element::Line(y)) => {
            let n = match unit_scale_exec(y, x) {
                Some(v) => v,
                None => {
                    return None;
                },
            };
            let u = match ratio_mul(x, n) {
                Some(v) => v,
                None => {
                    return None;
                },
            };
            let v = match ratio_mul(y, n) {
                Some(v) => v,
                None => {
                    return None;
                },
            };
            Some((Element::Line(ratio_norm(u)), Element::Shunt(ratio_norm(v))))
        },
        _ => Some((a, b)),
    }
}

/// Positive rationals have positive products and quotients.
proof fn lemma_rat_ops_positive(x: Rat, n: Rat)
    requires
        x.n > 0,
        x.d > 0,
        n.n > 0,
        n.d > 0,
    ensures
        rat_mul(x, n).n > 0,
        rat_mul(x, n).d > 0,
        rat_div(x, n).n > 0,
        rat_div(x, n).d > 0,
{
    assert(x.n * n.n > 0 && x.d * n.d > 0 && x.n * n.d > 0 && x.d * n.n > 0) by (nonlinear_arith)
        requires
            x.n > 0,
            x.d > 0,
            n.n > 0,
            n.d > 0,
    ;
}

/// Two pairs of positive rationals with the same ratio have the same scale
/// factor, and the scale factor of positives is positive.
proof fn lemma_unit_scale_ratio_congruence(x: Rat, y: Rat, x2: Rat, y2: Rat)
    requires
        x.n > 0,
        x.d > 0,
        y.n > 0,
        y.d > 0,
        x2.n > 0,
        x2.d > 0,
        y2.n > 0,
        y2.d > 0,
        rat_eqv(rat_div(x, y), rat_div(x2, y2)),
    ensures
        rat_eqv(unit_scale(x, y), unit_scale(x2, y2)),
        unit_scale(x, y).n > 0,
        unit_scale(x, y).d > 0,
{
    let q = rat_div(x, y);
    let q2 = rat_div(x2, y2);
    lemma_rat_ops_positive(x, y);
    lemma_rat_ops_positive(x2, y2);
    lemma_rat_norm_eqv(q);
    lemma_rat_norm_eqv(q2);
    let nq = rat_norm(q);
    let nq2 = rat_norm(q2);
    lemma_rat_eqv_trans(nq, q, q2);
    lemma_rat_eqv_trans(nq, q2, nq2);
    let s1 = rat_add(rat_one(), nq);
    let s2 = rat_add(rat_one(), nq2);
    lemma_rat_add_congruence_right(rat_one(), nq, nq2);
    assert(s1.n > 0 && s1.d > 0 && s2.n > 0 && s2.d > 0);
    lemma_rat_norm_eqv(s1);
    lemma_rat_norm_eqv(s2);
    lemma_rat_eqv_trans(rat_norm(s1), s1, s2);
    lemma_rat_eqv_trans(rat_norm(s1), s2, rat_norm(s2));
}

/// The pair transformer is an involution-preserving equivalence: transforming
/// `(Line x, Series y)` and then transforming the resulting `(Shunt, Line)`
/// pair recovers the original magnitudes exactly, as rational values.
pub proof fn lemma_pair_round_trip_series(x: Rat, y: Rat)
    requires
        rat_wf(x),
        rat_wf(y),
        x.n > 0,
        y.n > 0,
    ensures
        ({
            let p = pair_spec(El::Line(x), El::Series(y));
            let q = pair_spec(p.0, p.1);
            q.0 is Line && rat_eqv(mag(q.0), x) && q.1 is Series && rat_eqv(mag(q.1), y)
        }),
{
    let n1 = unit_scale(x, y);
    lemma_unit_scale_ratio_congruence(x, y, x, y);
    let uu = rat_mul(x, n1);
    let vu = rat_mul(y, n1);
    lemma_rat_ops_positive(x, n1);
    lemma_rat_ops_positive(y, n1);
    lemma_rat_norm_eqv(uu);
    lemma_rat_norm_eqv(vu);
    let u = rat_norm(uu);
    let v = rat_norm(vu);
    assert(pair_spec(El::Line(x), El::Series(y)) == (El::Shunt(u), El::Line(v)));
    // The transformed magnitudes keep the input ratio, so the second scale
    // factor equals the first.
    lemma_rat_div_congruence(u, uu, v, vu);
    lemma_rat_div_mul_cancel(x, y, n1);
    let m1 = rat_div(uu, vu);
    assert(uu.d * vu.n != 0) by (nonlinear_arith)
        requires
            uu.d > 0,
            vu.n > 0,
    ;
    lemma_rat_eqv_trans(rat_div(u, v), m1, rat_div(x, y));
    lemma_unit_scale_ratio_congruence(u, v, x, y);
    let n2 = unit_scale(u, v);
    assert(pair_spec(El::Shunt(u), El::Line(v)) == (
        El::Line(rat_norm(rat_div(u, n2))),
        El::Series(rat_norm(rat_div(v, n2))),
    ));
    // Dividing by the equal scale factor undoes the multiplication.
    lemma_rat_div_congruence(u, uu, n2, n1);
    lemma_rat_mul_div_cancel(x, n1);
    let m2 = rat_div(uu, n1);
    assert(uu.d * n1.n != 0) by (nonlinear_arith)
        requires
            uu.d > 0,
            n1.n > 0,
    ;
    lemma_rat_eqv_trans(rat_div(u, n2), m2, x);
    lemma_rat_ops_positive(u, n2);
    lemma_rat_norm_eqv(rat_div(u, n2));
    lemma_rat_eqv_trans(rat_norm(rat_div(u, n2)), rat_div(u, n2), x);
    lemma_rat_div_congruence(v, vu, n2, n1);
    lemma_rat_mul_div_cancel(y, n1);
    let m3 = rat_div(vu, n1);
    assert(vu.d * n1.n != 0) by (nonlinear_arith)
        requires
            vu.d > 0,
            n1.n > 0,
    ;
    lemma_rat_eqv_trans(rat_div(v, n2), m3, y);
    lemma_rat_ops_positive(v, n2);
    lemma_rat_norm_eqv(rat_div(v, n2));
    lemma_rat_eqv_trans(rat_norm(rat_div(v, n2)), rat_div(v, n2), y);
}

/// The mirror-image round trip: transforming `(Series x, Line y)` and then
/// transforming the resulting `(Line, Shunt)` pair recovers the original
/// magnitudes exactly, as rational values.
pub proof fn lemma_pair_round_trip_line(x: Rat, y: Rat)
    requires
        rat_wf(x),
        rat_wf(y),
        x.n > 0,
        y.n > 0,
    ensures
        ({
            let p = pair_spec(El::Series(x), El::Line(y));
            let q = pair_spec(p.0, p.1);
            q.0 is Series && rat_eqv(mag(q.0), x) && q.1 is Line && rat_eqv(mag(q.1), y)
        }),
{
    let n1 = unit_scale(y, x);
    lemma_unit_scale_ratio_congruence(y, x, y, x);
    let uu = rat_mul(x, n1);
    let vu = rat_mul(y, n1);
    lemma_rat_ops_positive(x, n1);
    lemma_rat_ops_positive(y, n1);
    lemma_rat_norm_eqv(uu);
    lemma_rat_norm_eqv(vu);
    let u = rat_norm(uu);
    let v = rat_norm(vu);
    assert(pair_spec(El::Series(x), El::Line(y)) == (El::Line(u), El::Shunt(v)));
    lemma_rat_div_congruence(v, vu, u, uu);
    lemma_rat_div_mul_cancel(y, x, n1);
    let m1 = rat_div(vu, uu);
    assert(vu.d * uu.n != 0) by (nonlinear_arith)
        requires
            vu.d > 0,
            uu.n > 0,
    ;
    lemma_rat_eqv_trans(rat_div(v, u), m1, rat_div(y, x));
    lemma_unit_scale_ratio_congruence(v, u, y, x);
    let n2 = unit_scale(v, u);
    assert(pair_spec(El::Line(u), El::Shunt(v)) == (
        El::Series(rat_norm(rat_div(u, n2))),
        El::Line(rat_norm(rat_div(v, n2))),
    ));
    lemma_rat_div_congruence(u, uu, n2, n1);
    lemma_rat_mul_div_cancel(x, n1);
    let m2 = rat_div(uu, n1);
    assert(uu.d * n1.n != 0) by (nonlinear_arith)
        requires
            uu.d > 0,
            n1.n > 0,
    ;
    lemma_rat_eqv_trans(rat_div(u, n2), m2, x);
    lemma_rat_ops_positive(u, n2);
    lemma_rat_norm_eqv(rat_div(u, n2));
    lemma_rat_eqv_trans(rat_norm(rat_div(u, n2)), rat_div(u, n2), x);
    lemma_rat_div_congruence(v, vu, n2, n1);
    lemma_rat_mul_div_cancel(y, n1);
    let m3 = rat_div(vu, n1);
    assert(vu.d * n1.n != 0) by (nonlinear_arith)
        requires
            vu.d > 0,
            n1.n > 0,
    ;
    lemma_rat_eqv_trans(rat_div(v, n2), m3, y);
    lemma_rat_ops_positive(v, n2);
    lemma_rat_norm_eqv(rat_div(v, n2));
    lemma_rat_eqv_trans(rat_norm(rat_div(v, n2)), rat_div(v, n2), y);
}

/// The round trip that starts from `(Line x, Shunt y)`: transforming it and
/// then transforming the resulting `(Series, Line)` pair recovers the
/// original magnitudes exactly, as rational values.
pub proof fn lemma_pair_round_trip_shunt(x: Rat, y: Rat)
    requires
        rat_wf(x),
        rat_wf(y),
        x.n > 0,
        y.n > 0,
    ensures
        ({
            let p = pair_spec(El::Line(x), El::Shunt(y));
            let q = pair_spec(p.0, p.1);
            q.0 is Line && rat_eqv(mag(q.0), x) && q.1 is Shunt && rat_eqv(mag(q.1), y)
        }),
{
    let n1 = unit_scale(y, x);
    lemma_unit_scale_ratio_congruence(y, x, y, x);
    let uu = rat_div(x, n1);
    let vu = rat_div(y, n1);
    lemma_rat_ops_positive(x, n1);
    lemma_rat_ops_positive(y, n1);
    lemma_rat_norm_eqv(uu);
    lemma_rat_norm_eqv(vu);
    let u = rat_norm(uu);
    let v = rat_norm(vu);
    assert(pair_spec(El::Line(x), El::Shunt(y)) == (El::Series(u), El::Line(v)));
    lemma_rat_div_congruence(v, vu, u, uu);
    lemma_rat_div_div_cancel(y, x, n1);
    let m1 = rat_div(vu, uu);
    assert(vu.d * uu.n != 0) by (nonlinear_arith)
        requires
            vu.d > 0,
            uu.n > 0,
    ;
    lemma_rat_eqv_trans(rat_div(v, u), m1, rat_div(y, x));
    lemma_unit_scale_ratio_congruence(v, u, y, x);
    let n2 = unit_scale(v, u);
    assert(pair_spec(El::Series(u), El::Line(v)) == (
        El::Line(rat_norm(rat_mul(u, n2))),
        El::Shunt(rat_norm(rat_mul(v, n2))),
    ));
    // Multiplying by the equal scale factor undoes the division.
    lemma_rat_mul_congruence(u, uu, n2, n1);
    lemma_rat_div_mul_undo(x, n1);
    let m2 = rat_mul(uu, n1);
    assert(uu.d * n1.d != 0) by (nonlinear_arith)
        requires
            uu.d > 0,
            n1.d > 0,
    ;
    lemma_rat_eqv_trans(rat_mul(u, n2), m2, x);
    lemma_rat_ops_positive(u, n2);
    lemma_rat_norm_eqv(rat_mul(u, n2));
    lemma_rat_eqv_trans(rat_norm(rat_mul(u, n2)), rat_mul(u, n2), x);
    lemma_rat_mul_congruence(v, vu, n2, n1);
    lemma_rat_div_mul_undo(y, n1);
    let m3 = rat_mul(vu, n1);
    assert(vu.d * n1.d != 0) by (nonlinear_arith)
        requires
            vu.d > 0,
            n1.d > 0,
    ;
    lemma_rat_eqv_trans(rat_mul(v, n2), m3, y);
    lemma_rat_ops_positive(v, n2);
    lemma_rat_norm_eqv(rat_mul(v, n2));
    lemma_rat_eqv_trans(rat_norm(rat_mul(v, n2)), rat_mul(v, n2), y);
}

/// The round trip that starts from `(Shunt x, Line y)`: transforming it and
/// then transforming the resulting `(Line, Series)` pair recovers the
/// original magnitudes exactly, as rational values.
pub proof fn lemma_pair_round_trip_shunt_line(x: Rat, y: Rat)
    requires
        rat_wf(x),
        rat_wf(y),
        x.n > 0,
        y.n > 0,
    ensures
        ({
            let p = pair_spec(El::Shunt(x), El::Line(y));
            let q = pair_spec(p.0, p.1);
            q.0 is Shunt && rat_eqv(mag(q.0), x) && q.1 is Line && rat_eqv(mag(q.1), y)
        }),
{
    let n1 = unit_scale(x, y);
    lemma_unit_scale_ratio_congruence(x, y, x, y);
    let uu = rat_div(x, n1);
    let vu = rat_div(y, n1);
    lemma_rat_ops_positive(x, n1);
    lemma_rat_ops_positive(y, n1);
    lemma_rat_norm_eqv(uu);
    lemma_rat_norm_eqv(vu);
    let u = rat_norm(uu);
    let v = rat_norm(vu);
    assert(pair_spec(El::Shunt(x), El::Line(y)) == (El::Line(u), El::Series(v)));
    lemma_rat_div_congruence(u, uu, v, vu);
    lemma_rat_div_div_cancel(x, y, n1);
    let m1 = rat_div(uu, vu);
    assert(uu.d * vu.n != 0) by (nonlinear_arith)
        requires
            uu.d > 0,
            vu.n > 0,
    ;
    lemma_rat_eqv_trans(rat_div(u, v), m1, rat_div(x, y));
    lemma_unit_scale_ratio_congruence(u, v, x, y);
    let n2 = unit_scale(u, v);
    assert(pair_spec(El::Line(u), El::Series(v)) == (
        El::Shunt(rat_norm(rat_mul(u, n2))),
        El::Line(rat_norm(rat_mul(v, n2))),
    ));
    lemma_rat_mul_congruence(u, uu, n2, n1);
    lemma_rat_div_mul_undo(x, n1);
    let m2 = rat_mul(uu, n1);
    assert(uu.d * n1.d != 0) by (nonlinear_arith)
        requires
            uu.d > 0,
            n1.d > 0,
    ;
    lemma_rat_eqv_trans(rat_mul(u, n2), m2, x);
    lemma_rat_ops_positive(u, n2);
    lemma_rat_norm_eqv(rat_mul(u, n2));
    lemma_rat_eqv_trans(rat_norm(rat_mul(u, n2)), rat_mul(u, n2), x);
    lemma_rat_mul_congruence(v, vu, n2, n1);
    lemma_rat_div_mul_undo(y, n1);
    let m3 = rat_mul(vu, n1);
    assert(vu.d * n1.d != 0) by (nonlinear_arith)
        requires
            vu.d > 0,
            n1.d > 0,
    ;
    lemma_rat_eqv_trans(rat_mul(v, n2), m3, y);
    lemma_rat_ops_positive(v, n2);
    lemma_rat_norm_eqv(rat_mul(v, n2));
    lemma_rat_eqv_trans(rat_norm(rat_mul(v, n2)), rat_mul(v, n2), y);
}

/// With well-formed positive magnitudes, every pair transformation yields
/// well-formed positive magnitudes: the scale factor and every reduced
/// product or quotient has a positive numerator and denominator, so no
/// division by a degenerate value arises anywhere in the engine.
pub proof fn lemma_pair_positive(a: El, b: El)
    requires
        rat_wf(mag(a)),
        rat_wf(mag(b)),
        mag(a).n > 0,
        mag(b).n > 0,
    ensures
        ({
            let p = pair_spec(a, b);
            mag(p.0).n > 0 && mag(p.0).d > 0 && mag(p.1).n > 0 && mag(p.1).d > 0
        }),
{
    let x = mag(a);
    let y = mag(b);
    lemma_unit_scale_ratio_congruence(x, y, x, y);
    lemma_unit_scale_ratio_congruence(y, x, y, x);
    let n1 = unit_scale(x, y);
    let n2 = unit_scale(y, x);
    lemma_rat_ops_positive(x, n1);
    lemma_rat_ops_positive(y, n1);
    lemma_rat_ops_positive(x, n2);
    lemma_rat_ops_positive(y, n2);
    lemma_rat_norm_eqv(rat_mul(x, n1));
    lemma_rat_norm_eqv(rat_mul(y, n1));
    lemma_rat_norm_eqv(rat_div(x, n1));
    lemma_rat_norm_eqv(rat_div(y, n1));
    lemma_rat_norm_eqv(rat_mul(x, n2));
    lemma_rat_norm_eqv(rat_mul(y, n2));
    lemma_rat_norm_eqv(rat_div(x, n2));
    lemma_rat_norm_eqv(rat_div(y, n2));
}

/// The pair transformer preserves the ratio of the two magnitudes: the result
/// magnitudes relate exactly as the input magnitudes did, since the scale
/// factor cancels in each of the four identities (and the defensive identity
/// changes nothing).
pub proof fn lemma_pair_preserves_ratio(a: El, b: El)
    requires
        rat_wf(mag(a)),
        rat_wf(mag(b)),
        mag(a).n > 0,
        mag(b).n > 0,
    ensures
        ({
            let p = pair_spec(a, b);
            rat_eqv(rat_div(mag(p.0), mag(p.1)), rat_div(mag(a), mag(b)))
        }),
{
    let x = mag(a);
    let y = mag(b);
    lemma_unit_scale_ratio_congruence(x, y, x, y);
    lemma_unit_scale_ratio_congruence(y, x, y, x);
    let n1 = unit_scale(x, y);
    let n2 = unit_scale(y, x);
    lemma_rat_ops_positive(x, n1);
    lemma_rat_ops_positive(y, n1);
    lemma_rat_ops_positive(x, n2);
    lemma_rat_ops_positive(y, n2);
    if (a is Line && b is Series) || (a is Series && b is Line) {
        let n = if a is Line {
            n1
        } else {
            n2
        };
        let uu = rat_mul(x, n);
        let vu = rat_mul(y, n);
        lemma_rat_norm_eqv(uu);
        lemma_rat_norm_eqv(vu);
        lemma_rat_div_congruence(rat_norm(uu), uu, rat_norm(vu), vu);
        lemma_rat_div_mul_cancel(x, y, n);
        let m1 = rat_div(uu, vu);
        assert(uu.d * vu.n != 0) by (nonlinear_arith)
            requires
                uu.d > 0,
                vu.n > 0,
        ;
        lemma_rat_eqv_trans(rat_div(rat_norm(uu), rat_norm(vu)), m1, rat_div(x, y));
    } else if (a is Line && b is Shunt) || (a is Shunt && b is Line) {
        let n = if a is Line {
            n2
        } else {
            n1
        };
        let uu = rat_div(x, n);
        let vu = rat_div(y, n);
        lemma_rat_norm_eqv(uu);
        lemma_rat_norm_eqv(vu);
        lemma_rat_div_congruence(rat_norm(uu), uu, rat_norm(vu), vu);
        lemma_rat_div_div_cancel(x, y, n);
        let m1 = rat_div(uu, vu);
        assert(uu.d * vu.n != 0) by (nonlinear_arith)
            requires
                uu.d > 0,
                vu.n > 0,
        ;
        lemma_rat_eqv_trans(rat_div(rat_norm(uu), rat_norm(vu)), m1, rat_div(x, y));
    }
}

} // verus!
