//! Ladder validation and prototype generation.
//!
//! A ladder is an ordered sequence of elements.  The input ladder of the
//! engine must strictly alternate between series and shunt elements; the
//! validator checks exactly that.  The prototype generator maps a filter
//! order between 1 and 10 to its table row of normalized g-values (the last
//! entry being the terminating load), strips the load, tags the remaining
//! entries alternately series/shunt by position parity, and stores the
//! reciprocal of each shunt value.

use crate::element::{ladder_view, El, Element};
use crate::rat::{rat, rat_inv, Rat, Ratio};
use vstd::prelude::*;

verus! {

/// An adjacent pair that the validator accepts: series then shunt, or shunt
/// then series.
pub open spec fn lp_pair(a: El, b: El) -> bool {
    (a is Series && b is Shunt) || (a is Shunt && b is Series)
}

/// Every adjacent pair alternates between series and shunt.
pub open spec fn alternating(s: Seq<El>) -> bool {
    forall|k: int| 0 <= k && k + 1 < s.len() ==> #[trigger] lp_pair(s[k], s[k + 1])
}

/// The validator: true iff every adjacent pair alternates.  Empty and
/// single-element ladders trivially pass.
pub fn all_pairs_lp(input: &Vec<Element>) -> (r: bool)
    ensures
        r == alternating(ladder_view(input@)),
{
    let ghost s = ladder_view(input@);
    if input.len() < 2 {
        return true;
    }
    let mut k: usize = 0;
    while k < input.len() - 1
        invariant
            input@.len() >= 2,
            k <= input@.len() - 1,
            s == ladder_view(input@),
            forall|j: int| 0 <= j && j + 1 <= k as int ==> #[trigger] lp_pair(s[j], s[j + 1]),
        decreases input@.len() - k,
    {
        let ok = match (&input[k], &input[k + 1]) {
            (Element::Series(_), Element::Shunt(_)) => true,
            (Element::Shunt(_), Element::Series(_)) => true,
            _ => false,
        };
        if !ok {
            assert(!lp_pair(s[k as int], s[k as int + 1]));
            return false;
        }
        k += 1;
    }
    true
}

/// The fixed table of normalized lowpass prototype g-values: for an order
/// between 1 and 10, the row of g-values followed by the terminating load.
pub open spec fn proto_row(order: int) -> Seq<Rat> {
    if order == 1 {
        seq![rat(2, 1), rat(1, 1)]
    } else if order == 2 {
        seq![rat(14142, 10000), rat(14142, 10000), rat(1, 1)]
    } else if order == 3 {
        seq![rat(1, 1), rat(2, 1), rat(1, 1), rat(1, 1)]
    } else if order == 4 {
        seq![rat(7654, 10000), rat(18478, 10000), rat(18478, 10000), rat(7654, 10000), rat(1, 1)]
    } else if order == 5 {
        seq![
            rat(618, 1000),
            rat(1618, 1000),
            rat(2, 1),
            rat(1618, 1000),
            rat(618, 1000),
            rat(1, 1),
        ]
    } else if order == 6 {
        seq![
            rat(5176, 10000),
            rat(14142, 10000),
            rat(19318, 10000),
            rat(19318, 10000),
            rat(14142, 10000),
            rat(5176, 10000),
            rat(1, 1),
        ]
    } else if order == 7 {
        seq![
            rat(445, 1000),
            rat(1247, 1000),
            rat(18019, 10000),
            rat(2, 1),
            rat(18019, 10000),
            rat(1247, 1000),
            rat(445, 1000),
            rat(1, 1),
        ]
    } else if order == 8 {
        seq![
            rat(3902, 10000),
            rat(1111, 1000),
            rat(16629, 10000),
            rat(19615, 10000),
            rat(19615, 10000),
            rat(16629, 10000),
            rat(1111, 1000),
            rat(39, 100),
            rat(1, 1),
        ]
    } else if order == 9 {
        seq![
            rat(3473, 10000),
            rat(1, 1),
            rat(15321, 10000),
            rat(18794, 10000),
            rat(2, 1),
            rat(18794, 10000),
            rat(15321, 10000),
            rat(1, 1),
            rat(3473, 10000),
            rat(1, 1),
        ]
    } else if order == 10 {
        seq![
            rat(3129, 10000),
            rat(908, 1000),
            rat(14142, 10000),
            rat(1782, 1000),
            rat(19754, 10000),
            rat(19754, 10000),
            rat(1782, 1000),
            rat(14142, 10000),
            rat(908, 1000),
            rat(3129, 10000),
            rat(1, 1),
        ]
    } else {
        Seq::empty()
    }
}

/// The input ladder built from a table row: the final (load) entry stripped,
/// even positions tagged series, odd positions tagged shunt with the
/// reciprocal magnitude.
pub open spec fn proto_ladder(row: Seq<Rat>) -> Seq<El> {
    Seq::new((row.len() - 1) as nat, |k: int| if k % 2 == 0 {
        El::Series(row[k])
    } else {
        El::Shunt(rat_inv(row[k]))
    })
}

/// A ladder tagged alternately by position parity alternates.
pub proof fn lemma_proto_alternating(row: Seq<Rat>)
    requires
        row.len() >= 1,
    ensures
        proto_ladder(row).len() == row.len() - 1,
        alternating(proto_ladder(row)),
{
    let l = proto_ladder(row);
    assert forall|k: int| 0 <= k && k + 1 < l.len() implies #[trigger] lp_pair(l[k], l[k + 1]) by {
        if k % 2 == 0 {
            assert(l[k] is Series && l[k + 1] is Shunt);
        } else {
            assert(l[k] is Shunt && l[k + 1] is Series);
        }
    }
}

fn row_literal(order: usize) -> (r: Option<Vec<Ratio>>)
    ensures
        r is Some <==> 1 <= order <= 10,
        r matches Some(v) ==> Seq::new(v@.len(), |k: int| v@[k]@) == proto_row(order as int),
        r matches Some(v) ==> v@.len() == order + 1,
{
    let v: Vec<Ratio> = match order {
        1 => vec![Ratio { num: 2, den: 1 }, Ratio { num: 1, den: 1 }],
        2 => vec![
            Ratio { num: 14142, den: 10000 },
            Ratio { num: 14142, den: 10000 },
            Ratio { num: 1, den: 1 },
        ],
        3 => vec![
            Ratio { num: 1, den: 1 },
            Ratio { num: 2, den: 1 },
            Ratio { num: 1, den: 1 },
            Ratio { num: 1, den: 1 },
        ],
        4 => vec![
            Ratio { num: 7654, den: 10000 },
            Ratio { num: 18478, den: 10000 },
            Ratio { num: 18478, den: 10000 },
            Ratio { num: 7654, den: 10000 },
            Ratio { num: 1, den: 1 },
        ],
        5 => vec![
            Ratio { num: 618, den: 1000 },
            Ratio { num: 1618, den: 1000 },
            Ratio { num: 2, den: 1 },
            Ratio { num: 1618, den: 1000 },
            Ratio { num: 618, den: 1000 },
            Ratio { num: 1, den: 1 },
        ],
        6 => vec![
            Ratio { num: 5176, den: 10000 },
            Ratio { num: 14142, den: 10000 },
            Ratio { num: 19318, den: 10000 },
            Ratio { num: 19318, den: 10000 },
            Ratio { num: 14142, den: 10000 },
            Ratio { num: 5176, den: 10000 },
            Ratio { num: 1, den: 1 },
        ],
        7 => vec![
            Ratio { num: 445, den: 1000 },
            Ratio { num: 1247, den: 1000 },
            Ratio { num: 18019, den: 10000 },
            Ratio { num: 2, den: 1 },
            Ratio { num: 18019, den: 10000 },
            Ratio { num: 1247, den: 1000 },
            Ratio { num: 445, den: 1000 },
            Ratio { num: 1, den: 1 },
        ],
        8 => vec![
            Ratio { num: 3902, den: 10000 },
            Ratio { num: 1111, den: 1000 },
            Ratio { num: 16629, den: 10000 },
            Ratio { num: 19615, den: 10000 },
            Ratio { num: 19615, den: 10000 },
            Ratio { num: 16629, den: 10000 },
            Ratio { num: 1111, den: 1000 },
            Ratio { num: 39, den: 100 },
            Ratio { num: 1, den: 1 },
        ],
        9 => vec![
            Ratio { num: 3473, den: 10000 },
            Ratio { num: 1, den: 1 },
            Ratio { num: 15321, den: 10000 },
            Ratio { num: 18794, den: 10000 },
            Ratio { num: 2, den: 1 },
            Ratio { num: 18794, den: 10000 },
            Ratio { num: 15321, den: 10000 },
            Ratio { num: 1, den: 1 },
            Ratio { num: 3473, den: 10000 },
            Ratio { num: 1, den: 1 },
        ],
        10 => vec![
            Ratio { num: 3129, den: 10000 },
            Ratio { num: 908, den: 1000 },
            Ratio { num: 14142, den: 10000 },
            Ratio { num: 1782, den: 1000 },
            Ratio { num: 19754, den: 10000 },
            Ratio { num: 19754, den: 10000 },
            Ratio { num: 1782, den: 1000 },
            Ratio { num: 14142, den: 10000 },
            Ratio { num: 908, den: 1000 },
            Ratio { num: 3129, den: 10000 },
            Ratio { num: 1, den: 1 },
        ],
        _ => {
            return None;
        },
    };
    proof {
        assert(Seq::new(v@.len(), |k: int| v@[k]@) =~= proto_row(order as int));
    }
    Some(v)
}

/// Produces the input ladder for a filter order: `None` exactly when the
/// order lies outside 1..=10, otherwise the load-stripped, tagged, inverted
/// prototype ladder of length equal to the order.
pub fn input_generation(order: usize) -> (r: Option<Vec<Element>>)
    ensures
        r is Some <==> 1 <= order <= 10,
        r matches Some(l) ==> ladder_view(l@) == proto_ladder(proto_row(order as int)),
        r matches Some(l) ==> l@.len() == order && alternating(ladder_view(l@)),
{
    let row = match row_literal(order) {
        Some(v) => v,
        None => {
            return None;
        },
    };
    let ghost rv = Seq::new(row@.len(), |k: int| row@[k]@);
    let mut out: Vec<Element> = Vec::new();
    let mut k: usize = 0;
    while k < row.len() - 1
        invariant
            row@.len() >= 2,
            k <= row@.len() - 1,
            out@.len() == k,
            rv == Seq::new(row@.len(), |j: int| row@[j]@),
            forall|j: int| 0 <= j < k ==> out@[j]@ == proto_ladder(rv)[j],
        decreases row@.len() - k,
    {
        let e = if k % 2 == 0 {
            Element::Series(row[k])
        } else {
            let g = row[k];
            Element::Shunt(Ratio { num: g.den, den: g.num })
        };
        out.push(e);
        k += 1;
    }
    proof {
        assert(rv == proto_row(order as int));
        assert(ladder_view(out@) =~= proto_ladder(proto_row(order as int)));
        lemma_proto_alternating(proto_row(order as int));
    }
    Some(out)
}

} // verus!
