//! The transformation-and-search engine.
//!
//! For a chosen pivot shunt, the candidate synthesizer seeds a working buffer
//! of length `2*N - 1` with the input elements at even positions and line
//! placeholders at odd positions, then migrates synthetic unit lines through
//! the ladder: lines entering from the left edge sweep rightward up to the
//! pivot, lines entering from the right edge sweep leftward down to it, each
//! sweep applying the pair transformer and parking the carried line next to
//! the shrinking (or growing) boundary.  The best-candidate selector scores
//! one candidate per shunt element by the sum of squared magnitudes and keeps
//! the first candidate of minimum score.

use crate::element::{
    ladder_view, mag, magnitude, pair_fits, pair_spec, process_pair, reactive, El, Element,
};
use crate::ladder::{alternating, lp_pair};
use crate::rat::{
    lemma_rat_add_congruence, lemma_rat_eqv_trans, lemma_rat_norm_eqv, rat_add, rat_eqv, rat_fits,
    rat_le, rat_lt, rat_mul, rat_norm, rat_one, rat_zero, ratio_add, ratio_lt, ratio_mul,
    ratio_norm, Rat, Ratio,
};
use vstd::prelude::*;

verus! {

/// The errors of the engine.  `InvalidInput` reports a ladder that does not
/// alternate; `Overflow` reports an exact magnitude that does not fit the
/// machine representation; `UnexpectedElement` reports a series or load
/// element found where only line-realizable elements may stand.
#[derive(Clone, Copy, PartialEq, Eq, Structural, Debug)]
pub enum TransformError {
    InvalidInput,
    Overflow,
    UnexpectedElement,
}

/// 0 when the ladder's first element is a shunt, 1 otherwise.
pub open spec fn first_shunt_offset(s: Seq<El>) -> int {
    if s.len() > 0 && s[0] is Shunt {
        0
    } else {
        1
    }
}

/// The number of shunt elements of an alternating ladder: shunts stand at
/// every other position starting at the first shunt offset.
pub open spec fn shunt_count(s: Seq<El>) -> int {
    if s.len() == 0 {
        0
    } else {
        (s.len() - first_shunt_offset(s) + 1) / 2
    }
}

/// The buffer position of the pivot: the `i`-th shunt element.
pub open spec fn pivot_cut(s: Seq<El>, i: int) -> int {
    2 * (first_shunt_offset(s) + 2 * i)
}

/// In an alternating ladder with at least one shunt, every element is
/// reactive and the shunts stand exactly at every other position, starting at
/// the first shunt offset.
pub proof fn lemma_alternating_parity(s: Seq<El>, j: int)
    requires
        alternating(s),
        1 <= shunt_count(s),
        0 <= j < s.len(),
    ensures
        reactive(s[j]),
        s[j] is Shunt <==> (j - first_shunt_offset(s)) % 2 == 0,
    decreases j,
{
    let s0 = first_shunt_offset(s);
    if j == 0 {
        if s.len() == 1 {
            assert(s0 == 0);
        } else {
            let k0: int = 0;
            assert(lp_pair(s[k0], s[k0 + 1]));
            assert(lp_pair(s[0], s[1]));
        }
    } else {
        lemma_alternating_parity(s, j - 1);
        let km: int = j - 1;
        assert(lp_pair(s[km], s[km + 1]));
        assert(lp_pair(s[j - 1], s[j]));
    }
}

/// The seeded working buffer: input elements at even positions, line
/// placeholders at odd positions.
pub open spec fn interleaved(s: Seq<El>) -> Seq<El> {
    Seq::new(
        if s.len() == 0 {
            0
        } else {
            ((2 * s.len() - 1) as nat)
        },
        |k: int|
            if k % 2 == 0 {
                s[k / 2]
            } else {
                El::Line(rat_zero())
            },
    )
}

/// One leftward-entering sweep: the carried element is exchanged rightward
/// through the even positions below the boundary `fin`, then parked at the
/// odd position just below the boundary.
pub open spec fn sweep_from_left(b: Seq<El>, carry: El, pos: int, fin: int) -> Seq<El>
    decreases fin - pos,
{
    if fin - pos >= 2 {
        let p = pair_spec(carry, b[pos]);
        sweep_from_left(b.update(pos, p.0), p.1, pos + 2, fin)
    } else {
        b.update(fin - 1, carry)
    }
}

/// Left propagation: sweeps enter from the left edge while the boundary,
/// which starts at the pivot, shrinks toward the left edge.
pub open spec fn propagate_left(b: Seq<El>, fin: int) -> Seq<El>
    decreases fin,
{
    if fin >= 2 {
        propagate_left(sweep_from_left(b, El::Line(rat_one()), 0, fin), fin - 2)
    } else {
        b
    }
}

/// One rightward-entering sweep: the carried element is exchanged leftward
/// through the even positions above the boundary `fin`, then parked at the
/// odd position just above the boundary.
pub open spec fn sweep_from_right(b: Seq<El>, carry: El, pos: int, fin: int) -> Seq<El>
    decreases pos - fin,
{
    if pos - fin >= 2 {
        let p = pair_spec(b[pos], carry);
        sweep_from_right(b.update(pos, p.1), p.0, pos - 2, fin)
    } else {
        b.update(fin + 1, carry)
    }
}

/// Right propagation: sweeps enter from the right edge (position `last`)
/// while the boundary, which starts at the pivot, grows toward that edge.
pub open spec fn propagate_right(b: Seq<El>, fin: int, last: int) -> Seq<El>
    decreases last - fin,
{
    if last - fin >= 2 {
        propagate_right(sweep_from_right(b, El::Line(rat_one()), last, fin), fin + 2, last)
    } else {
        b
    }
}

/// The candidate ladder for pivot index `i`: both propagations applied to the
/// seeded buffer.
pub open spec fn candidate_spec(s: Seq<El>, i: int) -> Seq<El> {
    let cut = pivot_cut(s, i);
    propagate_right(propagate_left(interleaved(s), cut), cut, 2 * s.len() - 2)
}

/// One leftward-entering sweep fits the machine representation: every pair
/// transformation along it does.
pub open spec fn sweep_from_left_fits(b: Seq<El>, carry: El, pos: int, fin: int) -> bool
    decreases fin - pos,
{
    if fin - pos >= 2 {
        let p = pair_spec(carry, b[pos]);
        pair_fits(carry, b[pos]) && sweep_from_left_fits(b.update(pos, p.0), p.1, pos + 2, fin)
    } else {
        true
    }
}

/// Left propagation fits: every sweep of it does.
pub open spec fn propagate_left_fits(b: Seq<El>, fin: int) -> bool
    decreases fin,
{
    if fin >= 2 {
        sweep_from_left_fits(b, El::Line(rat_one()), 0, fin) && propagate_left_fits(
            sweep_from_left(b, El::Line(rat_one()), 0, fin),
            fin - 2,
        )
    } else {
        true
    }
}

/// One rightward-entering sweep fits the machine representation.
pub open spec fn sweep_from_right_fits(b: Seq<El>, carry: El, pos: int, fin: int) -> bool
    decreases pos - fin,
{
    if pos - fin >= 2 {
        let p = pair_spec(b[pos], carry);
        pair_fits(b[pos], carry) && sweep_from_right_fits(b.update(pos, p.1), p.0, pos - 2, fin)
    } else {
        true
    }
}

/// Right propagation fits: every sweep of it does.
pub open spec fn propagate_right_fits(b: Seq<El>, fin: int, last: int) -> bool
    decreases last - fin,
{
    if last - fin >= 2 {
        sweep_from_right_fits(b, El::Line(rat_one()), last, fin) && propagate_right_fits(
            sweep_from_right(b, El::Line(rat_one()), last, fin),
            fin + 2,
            last,
        )
    } else {
        true
    }
}

/// The whole candidate computation fits the machine representation.
pub open spec fn candidate_fits(s: Seq<El>, i: int) -> bool {
    let cut = pivot_cut(s, i);
    propagate_left_fits(interleaved(s), cut) && propagate_right_fits(
        propagate_left(interleaved(s), cut),
        cut,
        2 * s.len() - 2,
    )
}

/// Builds the fully transformed candidate ladder for the `i`-th shunt of an
/// alternating input.  On success the result is exactly the candidate model,
/// has length `2*N - 1`, and holds a shunt at every even position and a line
/// at every odd position; it succeeds exactly when every exact magnitude
/// along the way fits the machine representation.
pub fn synthesize_candidate(input: &Vec<Element>, i: usize) -> (r: Result<
    Vec<Element>,
    TransformError,
>)
    requires
        1 <= input@.len() <= 0x1000_0000,
        alternating(ladder_view(input@)),
        i < shunt_count(ladder_view(input@)),
    ensures
        r matches Ok(out) ==> ladder_view(out@) == candidate_spec(ladder_view(input@), i as int)
            && out@.len() == 2 * input@.len() - 1,
        r matches Ok(out) ==> forall|k: int|
            0 <= k < out@.len() ==> ((k % 2 == 0 ==> (#[trigger] ladder_view(out@)[k]) is Shunt)
                && (k % 2 == 1 ==> ladder_view(out@)[k] is Line)),
        r is Ok <==> candidate_fits(ladder_view(input@), i as int),
        r matches Err(e) ==> e == TransformError::Overflow,
{
    let ghost s = ladder_view(input@);
    let n = input.len();
    let s0: usize = if matches!(input[0], Element::Shunt(_)) {
        0
    } else {
        1
    };
    assert(s0 as int == first_shunt_offset(s));
    let cut: usize = 2 * (s0 + 2 * i);
    assert(cut as int == pivot_cut(s, i as int));
    assert(cut <= 2 * n - 2);
    proof {
        assert forall|j: int|
            0 <= j < n implies reactive(#[trigger] s[j]) && (s[j] is Shunt <==> (j - s0 as int) % 2
            == 0) by {
            lemma_alternating_parity(s, j);
        }
    }

    // Seed the working buffer.
    let target = 2 * n - 1;
    let mut b: Vec<Element> = Vec::new();
    let mut k: usize = 0;
    while k < target
        invariant
            k <= target,
            target == 2 * n - 1,
            n == input@.len(),
            1 <= n <= 0x1000_0000,
            s == ladder_view(input@),
            b@.len() == k,
            forall|j: int| 0 <= j < k ==> b@[j]@ == interleaved(s)[j],
        decreases target - k,
    {
        if k % 2 == 0 {
            let e = input[k / 2];
            b.push(e);
        } else {
            b.push(Element::Line(Ratio { num: 0, den: 1 }));
        }
        k += 1;
    }
    assert(ladder_view(b@) =~= interleaved(s));

    // Left propagation.
    let mut fin: usize = cut;
    while fin >= 2
        invariant
            fin <= cut,
            fin % 2 == 0,
            cut % 2 == 0,
            cut <= 2 * n - 2,
            cut as int == pivot_cut(s, i as int),
            s0 as int == first_shunt_offset(s),
            n == input@.len(),
            1 <= n <= 0x1000_0000,
            s == ladder_view(input@),
            b@.len() == 2 * n - 1,
            propagate_left(ladder_view(b@), fin as int) == propagate_left(
                interleaved(s),
                cut as int,
            ),
            propagate_left_fits(ladder_view(b@), fin as int) <==> propagate_left_fits(
                interleaved(s),
                cut as int,
            ),
            forall|j: int|
                0 <= j < n ==> reactive(#[trigger] s[j]) && (s[j] is Shunt <==> (j - s0 as int) % 2
                    == 0),
            forall|j: int|
                0 <= j < 2 * n - 1 && j % 2 == 1 ==> (#[trigger] ladder_view(b@)[j]) is Line,
            forall|j: int|
                fin as int <= j <= cut as int && j % 2 == 0 ==> (#[trigger] ladder_view(b@)[j])
                    is Shunt,
            forall|j: int|
                0 <= j < fin as int && j % 2 == 0 ==> reactive(#[trigger] ladder_view(b@)[j]) && (
                ladder_view(b@)[j] is Shunt <==> (j / 2 - s0 as int + (cut as int - fin as int) / 2)
                    % 2 == 0),
            forall|j: int|
                (cut as int) < j && j < 2 * n - 1 ==> (#[trigger] ladder_view(b@)[j]) == interleaved(s)[j],
        decreases fin,
    {
        let ghost b_enter = ladder_view(b@);
        let mut carry: Element = Element::Line(Ratio { num: 1, den: 1 });
        let mut pos: usize = 0;
        while pos + 2 <= fin
            invariant
                pos <= fin,
                pos % 2 == 0,
                fin % 2 == 0,
                cut % 2 == 0,
                2 <= fin <= cut <= 2 * n - 2,
                cut as int == pivot_cut(s, i as int),
                s == ladder_view(input@),
                s0 as int == first_shunt_offset(s),
                n == input@.len(),
                1 <= n <= 0x1000_0000,
                b@.len() == 2 * n - 1,
                carry@ is Line,
                sweep_from_left(ladder_view(b@), carry@, pos as int, fin as int)
                    == sweep_from_left(b_enter, El::Line(rat_one()), 0, fin as int),
                propagate_left_fits(b_enter, fin as int) <==> propagate_left_fits(
                    interleaved(s),
                    cut as int,
                ),
                sweep_from_left_fits(ladder_view(b@), carry@, pos as int, fin as int)
                    <==> sweep_from_left_fits(b_enter, El::Line(rat_one()), 0, fin as int),
                forall|j: int|
                    0 <= j < 2 * n - 1 && j % 2 == 1 ==> (#[trigger] ladder_view(b@)[j]) is Line,
                forall|j: int|
                    fin as int <= j <= cut as int && j % 2 == 0 ==> (#[trigger] ladder_view(b@)[j])
                        is Shunt,
                forall|j: int|
                    0 <= j < pos as int && j % 2 == 0 ==> reactive(#[trigger] ladder_view(b@)[j])
                        && (ladder_view(b@)[j] is Shunt <==> (j / 2 - s0 as int + (cut as int
                        - fin as int) / 2 + 1) % 2 == 0),
                forall|j: int|
                    pos as int <= j < fin as int && j % 2 == 0 ==> reactive(
                        #[trigger] ladder_view(b@)[j],
                    ) && (ladder_view(b@)[j] is Shunt <==> (j / 2 - s0 as int + (cut as int
                        - fin as int) / 2) % 2 == 0),
                forall|j: int|
                    (cut as int) < j && j < 2 * n - 1 ==> (#[trigger] ladder_view(b@)[j]) == interleaved(
                        s,
                    )[j],
            decreases fin - pos,
        {
            let ghost bv = ladder_view(b@);
            let e = b[pos];
            let p = match process_pair(carry, e) {
                Some(p) => p,
                None => {
                    proof {
                        assert(!sweep_from_left_fits(bv, carry@, pos as int, fin as int));
                        assert(!sweep_from_left_fits(b_enter, El::Line(rat_one()), 0, fin as int));
                        assert(!propagate_left_fits(b_enter, fin as int));
                        assert(!propagate_left_fits(interleaved(s), cut as int));
                        assert(!candidate_fits(s, i as int));
                    }
                    return Err(TransformError::Overflow);
                },
            };
            proof {
                assert(reactive(bv[pos as int]));
                if bv[pos as int] is Series {
                    assert(p.0@ is Shunt && p.1@ is Line);
                } else {
                    assert(p.0@ is Series && p.1@ is Line);
                }
            }
            b[pos] = p.0;
            proof {
                assert(ladder_view(b@) =~= bv.update(pos as int, p.0@));
            }
            carry = p.1;
            pos += 2;
        }
        assert(pos == fin);
        let ghost bv = ladder_view(b@);
        let ghost c = carry@;
        b[fin - 1] = carry;
        proof {
            assert(ladder_view(b@) =~= bv.update(fin - 1, c));
            assert(sweep_from_left(bv, c, fin as int, fin as int) == bv.update(fin - 1, c));
            assert(ladder_view(b@) == sweep_from_left(b_enter, El::Line(rat_one()), 0, fin as int));
            assert(propagate_left(b_enter, fin as int) == propagate_left(
                ladder_view(b@),
                fin as int - 2,
            ));
            assert(sweep_from_left_fits(b_enter, El::Line(rat_one()), 0, fin as int));
            assert(propagate_left_fits(b_enter, fin as int) == propagate_left_fits(
                ladder_view(b@),
                fin as int - 2,
            ));
            assert((cut as int - fin as int) / 2 == cut as int / 2 - fin as int / 2);
            assert((cut as int - (fin as int - 2)) / 2 == cut as int / 2 - fin as int / 2 + 1);
        }
        fin -= 2;
    }
    assert(fin == 0);
    assert(ladder_view(b@) == propagate_left(interleaved(s), cut as int));
    assert(propagate_left_fits(interleaved(s), cut as int));
    let ghost b_mid = ladder_view(b@);

    // Right propagation.
    let last = 2 * n - 2;
    let mut fin2: usize = cut;
    while fin2 + 2 <= last
        invariant
            cut <= fin2 <= last,
            fin2 % 2 == 0,
            cut % 2 == 0,
            last == 2 * n - 2,
            cut as int == pivot_cut(s, i as int),
            b_mid == propagate_left(interleaved(s), cut as int),
            s0 as int == first_shunt_offset(s),
            n == input@.len(),
            1 <= n <= 0x1000_0000,
            s == ladder_view(input@),
            b@.len() == 2 * n - 1,
            propagate_right(ladder_view(b@), fin2 as int, last as int) == propagate_right(
                b_mid,
                cut as int,
                last as int,
            ),
            propagate_right_fits(ladder_view(b@), fin2 as int, last as int)
                <==> propagate_right_fits(b_mid, cut as int, last as int),
            forall|j: int|
                0 <= j < n ==> reactive(#[trigger] s[j]) && (s[j] is Shunt <==> (j - s0 as int) % 2
                    == 0),
            forall|j: int|
                0 <= j < 2 * n - 1 && j % 2 == 1 ==> (#[trigger] ladder_view(b@)[j]) is Line,
            forall|j: int|
                0 <= j <= fin2 as int && j % 2 == 0 ==> (#[trigger] ladder_view(b@)[j]) is Shunt,
            forall|j: int|
                (fin2 as int) < j && j <= last as int && j % 2 == 0 ==> reactive(
                    #[trigger] ladder_view(b@)[j],
                ) && (ladder_view(b@)[j] is Shunt <==> (j / 2 - s0 as int + (fin2 as int
                    - cut as int) / 2) % 2 == 0),
        decreases last - fin2,
    {
        let ghost b_enter = ladder_view(b@);
        let mut carry: Element = Element::Line(Ratio { num: 1, den: 1 });
        let mut pos: usize = last;
        while pos >= fin2 + 2
            invariant
                fin2 <= pos <= last,
                pos % 2 == 0,
                fin2 % 2 == 0,
                cut % 2 == 0,
                last == 2 * n - 2,
                cut <= fin2,
                fin2 + 2 <= last,
                cut as int == pivot_cut(s, i as int),
                s == ladder_view(input@),
                b_mid == propagate_left(interleaved(s), cut as int),
                s0 as int == first_shunt_offset(s),
                n == input@.len(),
                1 <= n <= 0x1000_0000,
                b@.len() == 2 * n - 1,
                carry@ is Line,
                sweep_from_right(ladder_view(b@), carry@, pos as int, fin2 as int)
                    == sweep_from_right(b_enter, El::Line(rat_one()), last as int, fin2 as int),
                propagate_right_fits(b_enter, fin2 as int, last as int)
                    <==> propagate_right_fits(b_mid, cut as int, last as int),
                sweep_from_right_fits(ladder_view(b@), carry@, pos as int, fin2 as int)
                    <==> sweep_from_right_fits(
                    b_enter,
                    El::Line(rat_one()),
                    last as int,
                    fin2 as int,
                ),
                forall|j: int|
                    0 <= j < 2 * n - 1 && j % 2 == 1 ==> (#[trigger] ladder_view(b@)[j]) is Line,
                forall|j: int|
                    0 <= j <= fin2 as int && j % 2 == 0 ==> (#[trigger] ladder_view(b@)[j])
                        is Shunt,
                forall|j: int|
                    (pos as int) < j && j <= last as int && j % 2 == 0 ==> reactive(
                        #[trigger] ladder_view(b@)[j],
                    ) && (ladder_view(b@)[j] is Shunt <==> (j / 2 - s0 as int + (fin2 as int
                        - cut as int) / 2 + 1) % 2 == 0),
                forall|j: int|
                    (fin2 as int) < j && j <= pos as int && j % 2 == 0 ==> reactive(
                        #[trigger] ladder_view(b@)[j],
                    ) && (ladder_view(b@)[j] is Shunt <==> (j / 2 - s0 as int + (fin2 as int
                        - cut as int) / 2) % 2 == 0),
            decreases pos,
        {
            let ghost bv = ladder_view(b@);
            let e = b[pos];
            let p = match process_pair(e, carry) {
                Some(p) => p,
                None => {
                    proof {
                        assert(!sweep_from_right_fits(bv, carry@, pos as int, fin2 as int));
                        assert(!sweep_from_right_fits(
                            b_enter,
                            El::Line(rat_one()),
                            last as int,
                            fin2 as int,
                        ));
                        assert(!propagate_right_fits(b_enter, fin2 as int, last as int));
                        assert(!propagate_right_fits(b_mid, cut as int, last as int));
                        assert(!candidate_fits(s, i as int));
                    }
                    return Err(TransformError::Overflow);
                },
            };
            proof {
                assert(reactive(bv[pos as int]));
                if bv[pos as int] is Series {
                    assert(p.0@ is Line && p.1@ is Shunt);
                } else {
                    assert(p.0@ is Line && p.1@ is Series);
                }
            }
            b[pos] = p.1;
            proof {
                assert(ladder_view(b@) =~= bv.update(pos as int, p.1@));
            }
            carry = p.0;
            pos -= 2;
        }
        assert(pos == fin2);
        let ghost bv = ladder_view(b@);
        let ghost c = carry@;
        b[fin2 + 1] = carry;
        proof {
            assert(ladder_view(b@) =~= bv.update(fin2 + 1, c));
            assert(sweep_from_right(bv, c, fin2 as int, fin2 as int) == bv.update(fin2 + 1, c));
            assert(ladder_view(b@) == sweep_from_right(
                b_enter,
                El::Line(rat_one()),
                last as int,
                fin2 as int,
            ));
            assert(propagate_right(b_enter, fin2 as int, last as int) == propagate_right(
                ladder_view(b@),
                fin2 as int + 2,
                last as int,
            ));
            assert(sweep_from_right_fits(b_enter, El::Line(rat_one()), last as int, fin2 as int));
            assert(propagate_right_fits(b_enter, fin2 as int, last as int)
                == propagate_right_fits(ladder_view(b@), fin2 as int + 2, last as int));
            assert((fin2 as int - cut as int) / 2 == fin2 as int / 2 - cut as int / 2);
            assert((fin2 as int + 2 - cut as int) / 2 == fin2 as int / 2 - cut as int / 2 + 1);
        }
        fin2 += 2;
    }
    assert(fin2 == last);
    assert(ladder_view(b@) == candidate_spec(s, i as int));
    assert(propagate_right_fits(b_mid, cut as int, last as int));
    assert(candidate_fits(s, i as int));
    Ok(b)
}

/// The goodness of a candidate: the sum over all elements of the squared
/// magnitude, as an exact rational.  Lower is better.
pub open spec fn goodness_spec(s: Seq<El>) -> Rat
    decreases s.len(),
{
    if s.len() == 0 {
        rat_zero()
    } else {
        rat_norm(rat_add(goodness_spec(s.drop_last()), rat_mul(mag(s.last()), mag(s.last()))))
    }
}

/// The goodness is never negative: its numerator and denominator are both
/// non-negative, whatever the elements hold.
pub proof fn lemma_goodness_nonneg(s: Seq<El>)
    ensures
        goodness_spec(s).n >= 0,
        goodness_spec(s).d >= 0,
    decreases s.len(),
{
    if s.len() > 0 {
        lemma_goodness_nonneg(s.drop_last());
        let g = goodness_spec(s.drop_last());
        let m = mag(s.last());
        assert(m.n * m.n >= 0 && m.d * m.d >= 0) by (nonlinear_arith);
        let sq = rat_mul(m, m);
        assert(g.n * sq.d >= 0 && sq.n * g.d >= 0 && g.d * sq.d >= 0) by (nonlinear_arith)
            requires
                g.n >= 0,
                g.d >= 0,
                sq.n >= 0,
                sq.d >= 0,
        ;
        lemma_rat_norm_eqv(rat_add(g, sq));
    }
}

/// Two rationals added to a common base in either order give value-equal sums.
proof fn lemma_rat_add_swap(g: Rat, a: Rat, b: Rat)
    ensures
        rat_eqv(rat_add(rat_add(g, a), b), rat_add(rat_add(g, b), a)),
{
    let l = rat_add(rat_add(g, a), b);
    let r = rat_add(rat_add(g, b), a);
    vstd::arithmetic::mul::lemma_mul_is_distributive_add_other_way(b.d, g.n * a.d, a.n * g.d);
    vstd::arithmetic::mul::lemma_mul_is_distributive_add_other_way(a.d, g.n * b.d, b.n * g.d);
    assert((g.n * a.d) * b.d == (g.n * b.d) * a.d) by (nonlinear_arith);
    assert((a.n * g.d) * b.d == a.n * (g.d * b.d)) by (nonlinear_arith);
    assert(b.n * (g.d * a.d) == (b.n * g.d) * a.d) by (nonlinear_arith);
    assert((g.n * a.d + a.n * g.d) * b.d + b.n * (g.d * a.d) == (g.n * b.d + b.n * g.d) * a.d + a.n
        * (g.d * b.d));
    assert((g.d * a.d) * b.d == (g.d * b.d) * a.d) by (nonlinear_arith);
    assert(l.n == r.n && l.d == r.d);
    assert(l.n * r.d == r.n * l.d);
}

/// The goodness denominator is nonzero when every magnitude denominator is.
proof fn lemma_goodness_den_nonzero(s: Seq<El>)
    requires
        forall|k: int| 0 <= k < s.len() ==> mag(#[trigger] s[k]).d != 0,
    ensures
        goodness_spec(s).d != 0,
    decreases s.len(),
{
    if s.len() > 0 {
        assert forall|k: int| 0 <= k < s.drop_last().len() implies mag(
            #[trigger] s.drop_last()[k],
        ).d != 0 by {
            assert(s.drop_last()[k] == s[k]);
        }
        lemma_goodness_den_nonzero(s.drop_last());
        let g = goodness_spec(s.drop_last());
        let m = mag(s.last());
        assert(mag(s[s.len() - 1]).d != 0);
        assert(g.d * (m.d * m.d) != 0) by (nonlinear_arith)
            requires
                g.d != 0,
                m.d != 0,
        ;
        lemma_rat_norm_eqv(rat_add(g, rat_mul(m, m)));
    }
}

/// Removing one element removes exactly its squared contribution from the
/// goodness, as a rational value.
proof fn lemma_goodness_remove(s: Seq<El>, j: int)
    requires
        0 <= j < s.len(),
        forall|k: int| 0 <= k < s.len() ==> mag(#[trigger] s[k]).d != 0,
    ensures
        rat_eqv(
            goodness_spec(s),
            rat_add(goodness_spec(s.remove(j)), rat_mul(mag(s[j]), mag(s[j]))),
        ),
    decreases s.len(),
{
    if j == s.len() - 1 {
        assert(s.remove(j) =~= s.drop_last());
        lemma_rat_norm_eqv(
            rat_add(goodness_spec(s.drop_last()), rat_mul(mag(s.last()), mag(s.last()))),
        );
    } else {
        let t = s.drop_last();
        assert forall|k: int| 0 <= k < t.len() implies mag(#[trigger] t[k]).d != 0 by {
            assert(t[k] == s[k]);
        }
        lemma_goodness_remove(t, j);
        let gr = goodness_spec(t.remove(j));
        let sq = rat_mul(mag(s[j]), mag(s[j]));
        let sl = rat_mul(mag(s.last()), mag(s.last()));
        assert(mag(s[s.len() - 1]).d != 0);
        assert(t[j] == s[j]);
        // goodness(s) is goodness(t) plus the last square; rewrite goodness(t)
        // by the induction hypothesis and swap the two added squares.
        lemma_rat_add_congruence(goodness_spec(t), rat_add(gr, sq), sl);
        lemma_rat_add_swap(gr, sq, sl);
        // the removal drops the same last element
        assert(s.remove(j).drop_last() =~= t.remove(j));
        assert(s.remove(j).last() == s.last());
        assert(goodness_spec(s.remove(j)) == rat_norm(rat_add(gr, sl)));
        // chain the value equalities through middles with nonzero
        // denominators
        assert forall|k: int| 0 <= k < t.remove(j).len() implies mag(
            #[trigger] t.remove(j)[k],
        ).d != 0 by {
            if k < j {
                assert(t.remove(j)[k] == s[k]);
            } else {
                assert(t.remove(j)[k] == s[k + 1]);
            }
        }
        lemma_goodness_den_nonzero(t.remove(j));
        lemma_goodness_den_nonzero(t);
        let base = rat_add(goodness_spec(t), sl);
        lemma_rat_norm_eqv(base);
        assert(base.d != 0) by (nonlinear_arith)
            requires
                goodness_spec(t).d != 0,
                mag(s[s.len() - 1]).d != 0,
                base.d == goodness_spec(t).d * (mag(s[s.len() - 1]).d * mag(s[s.len() - 1]).d),
        ;
        let m1 = rat_add(rat_add(gr, sq), sl);
        assert(m1.d != 0) by (nonlinear_arith)
            requires
                gr.d != 0,
                mag(s[j]).d != 0,
                mag(s[s.len() - 1]).d != 0,
                m1.d == ((gr.d * (mag(s[j]).d * mag(s[j]).d)) * (mag(s[s.len() - 1]).d * mag(
                    s[s.len() - 1],
                ).d)),
        ;
        // goodness(s) is the reduced base; unreduce, rewrite by the induction
        // hypothesis, swap the two squares, and reduce the removal's base.
        lemma_rat_eqv_trans(goodness_spec(s), base, m1);
        let m2 = rat_add(rat_add(gr, sl), sq);
        lemma_rat_eqv_trans(goodness_spec(s), m1, m2);
        lemma_rat_norm_eqv(rat_add(gr, sl));
        lemma_rat_add_congruence(rat_add(gr, sl), rat_norm(rat_add(gr, sl)), sq);
        assert(m2.d != 0) by (nonlinear_arith)
            requires
                gr.d != 0,
                mag(s[j]).d != 0,
                mag(s[s.len() - 1]).d != 0,
                m2.d == ((gr.d * (mag(s[s.len() - 1]).d * mag(s[s.len() - 1]).d)) * (mag(
                    s[j],
                ).d * mag(s[j]).d)),
        ;
        lemma_rat_eqv_trans(
            goodness_spec(s),
            m2,
            rat_add(rat_norm(rat_add(gr, sl)), sq),
        );
    }
}

/// The goodness is invariant to element ordering: two ladders that hold the
/// same elements, in any order, have value-equal goodness.
pub proof fn lemma_goodness_order_invariant(s1: Seq<El>, s2: Seq<El>)
    requires
        s1.to_multiset() == s2.to_multiset(),
        forall|k: int| 0 <= k < s1.len() ==> mag(#[trigger] s1[k]).d != 0,
        forall|k: int| 0 <= k < s2.len() ==> mag(#[trigger] s2[k]).d != 0,
    ensures
        rat_eqv(goodness_spec(s1), goodness_spec(s2)),
    decreases s1.len(),
{
    s1.to_multiset_ensures();
    s2.to_multiset_ensures();
    assert(s1.len() == s2.len());
    if s1.len() > 0 {
        let e = s1.last();
        assert(s1.contains(e));
        assert(s2.to_multiset().count(e) > 0);
        assert(s2.contains(e));
        let j = choose|j: int| 0 <= j < s2.len() && s2[j] == e;
        let t1 = s1.drop_last();
        let t2 = s2.remove(j);
        assert(t1 =~= s1.remove(s1.len() - 1));
        assert(s1.remove(s1.len() - 1).to_multiset() =~= s1.to_multiset().remove(e));
        assert(t2.to_multiset() =~= s2.to_multiset().remove(e));
        assert(t1.to_multiset() == t2.to_multiset());
        assert forall|k: int| 0 <= k < t1.len() implies mag(#[trigger] t1[k]).d != 0 by {
            assert(t1[k] == s1[k]);
        }
        assert forall|k: int| 0 <= k < t2.len() implies mag(#[trigger] t2[k]).d != 0 by {
            if k < j {
                assert(t2[k] == s2[k]);
            } else {
                assert(t2[k] == s2[k + 1]);
            }
        }
        lemma_goodness_order_invariant(t1, t2);
        let sq = rat_mul(mag(e), mag(e));
        // goodness(s1) is goodness(t1) plus the square of e
        assert(mag(s1[s1.len() - 1]).d != 0);
        lemma_rat_add_congruence(goodness_spec(t1), goodness_spec(t2), sq);
        lemma_goodness_remove(s2, j);
        lemma_goodness_den_nonzero(t2);
        lemma_goodness_den_nonzero(t1);
        let base = rat_add(goodness_spec(t1), sq);
        lemma_rat_norm_eqv(base);
        assert(base.d != 0) by (nonlinear_arith)
            requires
                goodness_spec(t1).d != 0,
                mag(e).d != 0,
                base.d == goodness_spec(t1).d * (mag(e).d * mag(e).d),
        ;
        let m1 = rat_add(goodness_spec(t2), sq);
        assert(m1.d != 0) by (nonlinear_arith)
            requires
                goodness_spec(t2).d != 0,
                mag(e).d != 0,
                m1.d == goodness_spec(t2).d * (mag(e).d * mag(e).d),
        ;
        lemma_rat_eqv_trans(goodness_spec(s1), base, m1);
        assert(rat_eqv(rat_add(goodness_spec(t2), sq), goodness_spec(s2)));
        lemma_rat_eqv_trans(goodness_spec(s1), m1, goodness_spec(s2));
    }
}

/// The goodness computation fits the machine representation: every squared
/// magnitude and every partial sum has representable components.
pub open spec fn goodness_fits(s: Seq<El>) -> bool
    decreases s.len(),
{
    if s.len() == 0 {
        true
    } else {
        goodness_fits(s.drop_last()) && rat_fits(rat_mul(mag(s.last()), mag(s.last())))
            && rat_fits(rat_add(goodness_spec(s.drop_last()), rat_mul(mag(s.last()), mag(s.last()))))
    }
}

/// Whatever fits as a whole fits as a prefix.
proof fn lemma_goodness_fits_prefix(s: Seq<El>, k: int)
    requires
        goodness_fits(s),
        0 <= k <= s.len(),
    ensures
        goodness_fits(s.take(k)),
    decreases s.len(),
{
    if k == s.len() {
        assert(s.take(k) =~= s);
    } else {
        assert(s.take(k) =~= s.drop_last().take(k));
        lemma_goodness_fits_prefix(s.drop_last(), k);
    }
}

/// Evaluates the goodness of a candidate: `Some` exactly when every exact
/// partial result fits the machine representation.
pub fn goodness(c: &Vec<Element>) -> (r: Option<Ratio>)
    ensures
        r matches Some(g) ==> g@ == goodness_spec(ladder_view(c@)),
        r is Some <==> goodness_fits(ladder_view(c@)),
{
    let ghost lv = ladder_view(c@);
    let mut acc = Ratio { num: 0, den: 1 };
    let mut k: usize = 0;
    while k < c.len()
        invariant
            k <= c@.len(),
            lv == ladder_view(c@),
            acc@ == goodness_spec(lv.take(k as int)),
            goodness_fits(lv.take(k as int)),
        decreases c@.len() - k,
    {
        proof {
            assert(lv.take(k as int + 1).drop_last() =~= lv.take(k as int));
            assert(lv.take(k as int + 1).last() == lv[k as int]);
        }
        let m = magnitude(&c[k]);
        let sq = match ratio_mul(m, m) {
            Some(v) => v,
            None => {
                proof {
                    assert(!goodness_fits(lv.take(k as int + 1)));
                    if goodness_fits(lv) {
                        lemma_goodness_fits_prefix(lv, k as int + 1);
                    }
                }
                return None;
            },
        };
        let a2 = match ratio_add(acc, sq) {
            Some(v) => v,
            None => {
                proof {
                    assert(!goodness_fits(lv.take(k as int + 1)));
                    if goodness_fits(lv) {
                        lemma_goodness_fits_prefix(lv, k as int + 1);
                    }
                }
                return None;
            },
        };
        acc = ratio_norm(a2);
        k += 1;
    }
    proof {
        assert(lv.take(c@.len() as int) =~= lv);
    }
    Some(acc)
}

/// A strict comparison chained with a non-strict one, for rationals with
/// positive denominators.
proof fn lemma_rat_lt_le_trans(a: Rat, b: Rat, c: Rat)
    requires
        rat_lt(a, b),
        rat_le(b, c),
        a.d >= 0,
        b.d > 0,
        c.d > 0,
    ensures
        rat_lt(a, c),
{
    assert(a.n * c.d * b.d < c.n * a.d * b.d) by (nonlinear_arith)
        requires
            a.n * b.d < b.n * a.d,
            b.n * c.d <= c.n * b.d,
            c.d > 0,
            a.d >= 0,
    ;
    assert(a.n * c.d < c.n * a.d) by (nonlinear_arith)
        requires
            a.n * c.d * b.d < c.n * a.d * b.d,
            b.d > 0,
    ;
}

/// The whole candidate search fits the machine representation: every
/// candidate's synthesis and scoring fits, every score has a positive
/// denominator (so that the cross-multiplied comparisons order the scores as
/// rationals), and every cross product that compares two scores fits.
pub open spec fn selection_fits(s: Seq<El>) -> bool {
    &&& forall|j: int| 0 <= j < shunt_count(s) ==> #[trigger] candidate_fits(s, j)
    &&& forall|j: int|
        0 <= j < shunt_count(s) ==> goodness_fits(#[trigger] candidate_spec(s, j))
    &&& forall|j: int|
        0 <= j < shunt_count(s) ==> goodness_spec(#[trigger] candidate_spec(s, j)).d > 0
    &&& forall|j: int, m: int|
        #![trigger candidate_spec(s, j), candidate_spec(s, m)]
        0 <= j < shunt_count(s) && 0 <= m < shunt_count(s) ==> goodness_spec(
            candidate_spec(s, j),
        ).n * goodness_spec(candidate_spec(s, m)).d <= u128::MAX
}

/// The whole engine computation fits the machine representation, by the shape
/// of the input ladder.
pub open spec fn engine_fits(s: Seq<El>) -> bool {
    if s.len() == 0 {
        true
    } else if shunt_count(s) == 0 {
        pair_fits(El::Line(rat_one()), s[0])
    } else {
        selection_fits(s)
    }
}

/// What the selector's result is for an input ladder `s`: empty for an empty
/// input; for an input without a shunt, the pair transformer applied once
/// between an implicit unit line and the sole element; otherwise the first
/// candidate of minimum goodness among all `shunt_count` candidates.
pub open spec fn selected_at(s: Seq<El>, out: Seq<El>, best: int) -> bool {
    &&& 0 <= best < shunt_count(s)
    &&& out == candidate_spec(s, best)
    &&& forall|j: int|
        0 <= j < shunt_count(s) ==> rat_le(
            goodness_spec(candidate_spec(s, best)),
            goodness_spec(#[trigger] candidate_spec(s, j)),
        )
    &&& forall|j: int|
        0 <= j < best ==> rat_lt(
            goodness_spec(candidate_spec(s, best)),
            goodness_spec(#[trigger] candidate_spec(s, j)),
        )
}

pub open spec fn selected(s: Seq<El>, out: Seq<El>) -> bool {
    if s.len() == 0 {
        out == Seq::<El>::empty()
    } else if shunt_count(s) == 0 {
        out == seq![
            pair_spec(El::Line(rat_one()), s[0]).0,
            pair_spec(El::Line(rat_one()), s[0]).1,
        ]
    } else {
        exists|best: int| selected_at(s, out, best)
    }
}

/// The synthesis entry point: validates the input ladder, synthesizes one
/// candidate per shunt element, scores each by goodness, and returns the
/// first candidate of minimum goodness (recomputed for the winning pivot).
/// Fails with `InvalidInput` exactly when the ladder does not alternate, and
/// with `Overflow` only otherwise; success is owed whenever the whole exact
/// computation fits the machine representation (`engine_fits`).
pub fn transform_structure(input: &Vec<Element>) -> (r: Result<Vec<Element>, TransformError>)
    requires
        input@.len() <= 0x1000_0000,
    ensures
        (r matches Err(e) && e == TransformError::InvalidInput) <==> !alternating(
            ladder_view(input@),
        ),
        r matches Ok(out) ==> selected(ladder_view(input@), ladder_view(out@)),
        r matches Ok(out) ==> (shunt_count(ladder_view(input@)) >= 1 ==> out@.len() == 2
            * input@.len() - 1),
        r matches Ok(out) ==> (shunt_count(ladder_view(input@)) >= 1 ==> forall|k: int|
            0 <= k < out@.len() ==> ((k % 2 == 0 ==> (#[trigger] ladder_view(out@)[k]) is Shunt)
                && (k % 2 == 1 ==> ladder_view(out@)[k] is Line))),
        (alternating(ladder_view(input@)) && engine_fits(ladder_view(input@))) ==> r is Ok,
        r matches Err(e) ==> (e == TransformError::InvalidInput || e == TransformError::Overflow),
{
    let ghost s = ladder_view(input@);
    if !crate::ladder::all_pairs_lp(input) {
        return Err(TransformError::InvalidInput);
    }
    let n = input.len();
    if n == 0 {
        let out: Vec<Element> = Vec::new();
        assert(ladder_view(out@) =~= Seq::<El>::empty());
        return Ok(out);
    }
    let s0: usize = if matches!(input[0], Element::Shunt(_)) {
        0
    } else {
        1
    };
    let sc: usize = (n - s0 + 1) / 2;
    assert(sc as int == shunt_count(s));
    if sc == 0 {
        // No shunt to pivot on: transform the sole element against an
        // implicit unit line.
        let p = match process_pair(Element::Line(Ratio { num: 1, den: 1 }), input[0]) {
            Some(p) => p,
            None => {
                proof {
                    assert(!pair_fits(El::Line(rat_one()), s[0]));
                }
                return Err(TransformError::Overflow);
            },
        };
        let mut out: Vec<Element> = Vec::new();
        out.push(p.0);
        out.push(p.1);
        proof {
            assert(ladder_view(out@) =~= seq![
                pair_spec(El::Line(rat_one()), s[0]).0,
                pair_spec(El::Line(rat_one()), s[0]).1,
            ]);
        }
        return Ok(out);
    }

    // Score every candidate.
    let mut scores: Vec<Ratio> = Vec::new();
    let mut idx: usize = 0;
    while idx < sc
        invariant
            idx <= sc,
            sc as int == shunt_count(s),
            s == ladder_view(input@),
            alternating(s),
            n == input@.len(),
            1 <= n <= 0x1000_0000,
            scores@.len() == idx,
            forall|j: int|
                0 <= j < idx ==> scores@[j]@ == goodness_spec(#[trigger] candidate_spec(s, j)),
        decreases sc - idx,
    {
        let cand = match synthesize_candidate(input, idx) {
            Ok(c) => c,
            Err(_) => {
                proof {
                    assert(!candidate_fits(s, idx as int));
                }
                return Err(TransformError::Overflow);
            },
        };
        let g = match goodness(&cand) {
            Some(g) => g,
            None => {
                proof {
                    assert(!goodness_fits(candidate_spec(s, idx as int)));
                }
                return Err(TransformError::Overflow);
            },
        };
        scores.push(g);
        idx += 1;
    }

    // Pick the first index of minimum score, comparing each score against the
    // running best directly so that every recorded comparison is exact.
    let mut best_i: usize = 0;
    let mut j: usize = 1;
    while j < sc
        invariant
            1 <= j <= sc,
            best_i < j,
            sc as int == shunt_count(s),
            s == ladder_view(input@),
            alternating(s),
            n == input@.len(),
            1 <= n <= 0x1000_0000,
            scores@.len() == sc,
            forall|m: int|
                0 <= m < sc ==> scores@[m]@ == goodness_spec(#[trigger] candidate_spec(s, m)),
            forall|m: int|
                0 <= m < j ==> rat_le(scores@[best_i as int]@, #[trigger] scores@[m]@),
            forall|m: int| 0 <= m < best_i ==> rat_lt(scores@[best_i as int]@, #[trigger] scores@[m]@),
        decreases sc - j,
    {
        let better = match ratio_lt(scores[j], scores[best_i]) {
            Some(v) => v,
            None => {
                proof {
                    if selection_fits(s) {
                        assert(goodness_spec(candidate_spec(s, j as int)).n * goodness_spec(
                            candidate_spec(s, best_i as int),
                        ).d <= u128::MAX);
                        assert(goodness_spec(candidate_spec(s, best_i as int)).n * goodness_spec(
                            candidate_spec(s, j as int),
                        ).d <= u128::MAX);
                    }
                }
                return Err(TransformError::Overflow);
            },
        };
        if better {
            // Re-check the new best against every earlier score directly, so
            // that each recorded comparison is an exact cross multiplication
            // rather than an appeal to transitivity.
            let mut m: usize = 0;
            while m < j
                invariant
                    m <= j,
                    j < sc,
                    best_i < j,
                    sc as int == shunt_count(s),
                    s == ladder_view(input@),
                    alternating(s),
                    n == input@.len(),
                    1 <= n <= 0x1000_0000,
                    scores@.len() == sc,
                    forall|t: int|
                        0 <= t < sc ==> scores@[t]@ == goodness_spec(
                            #[trigger] candidate_spec(s, t),
                        ),
                    rat_lt(scores@[j as int]@, scores@[best_i as int]@),
                    forall|t: int| 0 <= t < j ==> rat_le(scores@[best_i as int]@, #[trigger] scores@[t]@),
                    forall|t: int| 0 <= t < m ==> rat_lt(scores@[j as int]@, #[trigger] scores@[t]@),
                decreases j - m,
            {
                let still = match ratio_lt(scores[j], scores[m]) {
                    Some(v) => v,
                    None => {
                        proof {
                            if selection_fits(s) {
                                assert(goodness_spec(candidate_spec(s, j as int)).n
                                    * goodness_spec(candidate_spec(s, m as int)).d <= u128::MAX);
                                assert(goodness_spec(candidate_spec(s, m as int)).n
                                    * goodness_spec(candidate_spec(s, j as int)).d <= u128::MAX);
                            }
                        }
                        return Err(TransformError::Overflow);
                    },
                };
                if !still {
                    // The comparisons can disagree with a strict order only
                    // for degenerate (zero-denominator) magnitudes, which no
                    // prototype produces; report rather than guess a winner.
                    proof {
                        if selection_fits(s) {
                            assert(goodness_spec(candidate_spec(s, j as int)).d > 0);
                            assert(goodness_spec(candidate_spec(s, best_i as int)).d > 0);
                            assert(goodness_spec(candidate_spec(s, m as int)).d > 0);
                            lemma_rat_lt_le_trans(
                                scores@[j as int]@,
                                scores@[best_i as int]@,
                                scores@[m as int]@,
                            );
                        }
                    }
                    return Err(TransformError::Overflow);
                }
                m += 1;
            }
            best_i = j;
        }
        j += 1;
    }

    // Recompute the winning candidate.
    let out = match synthesize_candidate(input, best_i) {
        Ok(c) => c,
        Err(_) => {
            proof {
                assert(!candidate_fits(s, best_i as int));
            }
            return Err(TransformError::Overflow);
        },
    };
    proof {
        assert(selected_at(s, ladder_view(out@), best_i as int));
    }
    Ok(out)
}

/// Scales an element for denormalization: line and shunt magnitudes are
/// multiplied by the reference impedance, other elements are untouched.
pub open spec fn scaled_el(e: El, z: Rat) -> El {
    match e {
        El::Line(v) => El::Line(rat_mul(v, z)),
        El::Shunt(v) => El::Shunt(rat_mul(v, z)),
        _ => e,
    }
}

/// Multiplies every line and shunt magnitude of a transformed ladder by the
/// reference impedance `z`.  A series or load element in the input is a
/// contract violation of the engine and is reported as `UnexpectedElement`,
/// never silently scaled; `Overflow` reports a product that does not fit.
pub fn denormalize(ladder: &Vec<Element>, z: Ratio) -> (r: Result<Vec<Element>, TransformError>)
    ensures
        (r matches Err(e) && e == TransformError::UnexpectedElement) <==> (exists|k: int|
            0 <= k < ladder@.len() && (#[trigger] ladder_view(ladder@)[k] is Series || ladder_view(
                ladder@,
            )[k] is Load)),
        r matches Ok(out) ==> out@.len() == ladder@.len() && (forall|k: int|
            0 <= k < out@.len() ==> #[trigger] ladder_view(out@)[k] == scaled_el(
                ladder_view(ladder@)[k],
                z@,
            )),
        r matches Ok(out) ==> (forall|k: int|
            0 <= k < out@.len() ==> !(#[trigger] ladder_view(out@)[k] is Series) && !(ladder_view(
                out@,
            )[k] is Load)),
        r is Ok <==> ((forall|k: int|
            0 <= k < ladder@.len() ==> !((#[trigger] ladder_view(ladder@)[k]) is Series) && !(
            ladder_view(ladder@)[k] is Load)) && (forall|k: int|
            0 <= k < ladder@.len() ==> rat_fits(
                rat_mul(mag(#[trigger] ladder_view(ladder@)[k]), z@),
            ))),
        r matches Err(e) ==> (e == TransformError::UnexpectedElement || e
            == TransformError::Overflow),
{
    let ghost lv = ladder_view(ladder@);
    let mut k: usize = 0;
    while k < ladder.len()
        invariant
            k <= ladder@.len(),
            lv == ladder_view(ladder@),
            forall|j: int| 0 <= j < k ==> !(#[trigger] lv[j] is Series) && !(lv[j] is Load),
        decreases ladder@.len() - k,
    {
        match &ladder[k] {
            Element::Series(_) => {
                assert(ladder_view(ladder@)[k as int] is Series);
                return Err(TransformError::UnexpectedElement);
            },
            Element::Load(_) => {
                assert(ladder_view(ladder@)[k as int] is Load);
                return Err(TransformError::UnexpectedElement);
            },
            _ => {},
        }
        k += 1;
    }
    let mut out: Vec<Element> = Vec::new();
    let mut k2: usize = 0;
    while k2 < ladder.len()
        invariant
            k2 <= ladder@.len(),
            lv == ladder_view(ladder@),
            out@.len() == k2,
            forall|j: int| 0 <= j < ladder@.len() ==> !(#[trigger] lv[j] is Series) && !(lv[j] is Load),
            forall|j: int| 0 <= j < k2 ==> out@[j]@ == scaled_el(lv[j], z@),
            forall|j: int| 0 <= j < k2 ==> rat_fits(rat_mul(mag(#[trigger] lv[j]), z@)),
        decreases ladder@.len() - k2,
    {
        let e = match &ladder[k2] {
            Element::Line(v) => {
                let sv = match ratio_mul(*v, z) {
                    Some(sv) => sv,
                    None => {
                        proof {
                            assert(!rat_fits(rat_mul(mag(lv[k2 as int]), z@)));
                        }
                        return Err(TransformError::Overflow);
                    },
                };
                Element::Line(sv)
            },
            Element::Shunt(v) => {
                let sv = match ratio_mul(*v, z) {
                    Some(sv) => sv,
                    None => {
                        proof {
                            assert(!rat_fits(rat_mul(mag(lv[k2 as int]), z@)));
                        }
                        return Err(TransformError::Overflow);
                    },
                };
                Element::Shunt(sv)
            },
            Element::Series(_) => {
                proof {
                    assert(!(lv[k2 as int] is Series));
                }
                unreached()
            },
            Element::Load(_) => {
                proof {
                    assert(!(lv[k2 as int] is Load));
                }
                unreached()
            },
        };
        out.push(e);
        k2 += 1;
    }
    proof {
        assert forall|t: int|
            0 <= t < out@.len() implies !(#[trigger] ladder_view(out@)[t] is Series) && !(
        ladder_view(out@)[t] is Load) by {
            assert(ladder_view(out@)[t] == scaled_el(lv[t], z@));
            assert(!(lv[t] is Series) && !(lv[t] is Load));
        }
    }
    Ok(out)
}

} // verus!
