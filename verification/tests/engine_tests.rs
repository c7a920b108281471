use butterworth::element::{process_pair, Element};
use butterworth::engine::{denormalize, goodness, synthesize_candidate, transform_structure,
    TransformError};
use butterworth::ladder::{all_pairs_lp, input_generation};
use butterworth::rat::{ratio_eqv, ratio_lt, Ratio};

fn q(num: u128, den: u128) -> Ratio {
    Ratio { num, den }
}

fn same_value(a: Ratio, b: Ratio) -> bool {
    ratio_eqv(a, b).unwrap()
}

#[test]
fn prototype_orders_alternate_and_have_order_length() {
    for order in 1..=10usize {
        let ladder = input_generation(order).unwrap();
        assert_eq!(ladder.len(), order);
        assert!(all_pairs_lp(&ladder));
        for (k, e) in ladder.iter().enumerate() {
            if k % 2 == 0 {
                assert!(matches!(e, Element::Series(_)));
            } else {
                assert!(matches!(e, Element::Shunt(_)));
            }
        }
    }
}

#[test]
fn prototype_rejects_out_of_range_orders() {
    assert!(input_generation(0).is_none());
    assert!(input_generation(11).is_none());
    assert!(input_generation(100).is_none());
}

#[test]
fn validator_accepts_alternating_sequences() {
    assert!(all_pairs_lp(&vec![]));
    assert!(all_pairs_lp(&vec![Element::Series(q(1, 1))]));
    assert!(all_pairs_lp(&vec![Element::Shunt(q(1, 2))]));
    assert!(all_pairs_lp(&vec![Element::Series(q(1, 1)), Element::Shunt(q(1, 2))]));
    assert!(all_pairs_lp(&vec![
        Element::Shunt(q(1, 2)),
        Element::Series(q(1, 1)),
        Element::Shunt(q(3, 4)),
    ]));
}

#[test]
fn validator_rejects_adjacent_same_tags() {
    assert!(!all_pairs_lp(&vec![Element::Series(q(1, 1)), Element::Series(q(2, 1))]));
    assert!(!all_pairs_lp(&vec![Element::Shunt(q(1, 1)), Element::Shunt(q(2, 1))]));
    assert!(!all_pairs_lp(&vec![
        Element::Series(q(1, 1)),
        Element::Shunt(q(1, 2)),
        Element::Shunt(q(1, 2)),
    ]));
    assert!(!all_pairs_lp(&vec![
        Element::Series(q(1, 1)),
        Element::Line(q(1, 2)),
        Element::Series(q(1, 1)),
    ]));
}

#[test]
fn pair_transform_round_trip_recovers_values() {
    let (p0, p1) = process_pair(Element::Line(q(1, 1)), Element::Series(q(2, 1))).unwrap();
    assert!(matches!(p0, Element::Shunt(_)));
    assert!(matches!(p1, Element::Line(_)));
    let (r0, r1) = process_pair(p0, p1).unwrap();
    match (r0, r1) {
        (Element::Line(a), Element::Series(b)) => {
            assert!(same_value(a, q(1, 1)));
            assert!(same_value(b, q(2, 1)));
        },
        _ => panic!("round trip changed the pair shape"),
    }
}

#[test]
fn pair_transform_mirror_round_trip_recovers_values() {
    let (p0, p1) = process_pair(Element::Series(q(3, 2)), Element::Line(q(1, 1))).unwrap();
    assert!(matches!(p0, Element::Line(_)));
    assert!(matches!(p1, Element::Shunt(_)));
    let (r0, r1) = process_pair(p0, p1).unwrap();
    match (r0, r1) {
        (Element::Series(a), Element::Line(b)) => {
            assert!(same_value(a, q(3, 2)));
            assert!(same_value(b, q(1, 1)));
        },
        _ => panic!("round trip changed the pair shape"),
    }
}

#[test]
fn pair_transform_leaves_other_pairings_unchanged() {
    let a = Element::Series(q(1, 1));
    let b = Element::Shunt(q(1, 2));
    assert_eq!(process_pair(a, b).unwrap(), (a, b));
    let c = Element::Line(q(1, 1));
    let d = Element::Line(q(2, 1));
    assert_eq!(process_pair(c, d).unwrap(), (c, d));
}

#[test]
fn candidate_has_doubled_length_and_only_line_realizable_elements() {
    // A single-shunt ladder is its own candidate.
    let lone = vec![Element::Shunt(q(1, 2))];
    assert_eq!(synthesize_candidate(&lone, 0).unwrap(), lone);
    for order in [2usize, 3] {
        let ladder = input_generation(order).unwrap();
        let cand = synthesize_candidate(&ladder, 0).unwrap();
        assert_eq!(cand.len(), 2 * order - 1);
        for (k, e) in cand.iter().enumerate() {
            assert!(!matches!(e, Element::Series(_)));
            assert!(!matches!(e, Element::Load(_)));
            if k % 2 == 1 {
                assert!(matches!(e, Element::Line(_)));
            }
        }
    }
}

#[test]
fn goodness_is_order_invariant_and_non_negative() {
    let a = vec![
        Element::Line(q(2, 1)),
        Element::Shunt(q(3, 2)),
        Element::Line(q(1, 2)),
    ];
    let b = vec![
        Element::Shunt(q(3, 2)),
        Element::Line(q(1, 2)),
        Element::Line(q(2, 1)),
    ];
    let ga = goodness(&a).unwrap();
    let gb = goodness(&b).unwrap();
    assert!(same_value(ga, gb));
    // 4 + 9/4 + 1/4 = 13/2
    assert!(same_value(ga, q(13, 2)));
}

#[test]
fn selector_matches_brute_force_re_scoring() {
    let ladder = vec![
        Element::Shunt(q(1, 1)),
        Element::Series(q(2, 1)),
        Element::Shunt(q(1, 2)),
    ];
    assert!(all_pairs_lp(&ladder));
    let chosen = transform_structure(&ladder).unwrap();
    // Brute force over both shunt pivots.
    let mut best: Option<(usize, Ratio)> = None;
    for i in 0..2usize {
        let cand = synthesize_candidate(&ladder, i).unwrap();
        let g = goodness(&cand).unwrap();
        best = match best {
            None => Some((i, g)),
            Some((bi, bg)) => {
                if ratio_lt(g, bg).unwrap() {
                    Some((i, g))
                } else {
                    Some((bi, bg))
                }
            },
        };
    }
    let (best_i, _) = best.unwrap();
    let expected = synthesize_candidate(&ladder, best_i).unwrap();
    assert_eq!(chosen, expected);
}

#[test]
fn order_three_end_to_end_is_exact_and_deterministic() {
    let ladder = input_generation(3).unwrap();
    assert_eq!(
        ladder,
        vec![
            Element::Series(q(1, 1)),
            Element::Shunt(q(1, 2)),
            Element::Series(q(1, 1)),
        ]
    );
    let out = transform_structure(&ladder).unwrap();
    assert_eq!(
        out,
        vec![
            Element::Shunt(q(2, 1)),
            Element::Line(q(2, 1)),
            Element::Shunt(q(1, 2)),
            Element::Line(q(2, 1)),
            Element::Shunt(q(2, 1)),
        ]
    );
    let again = transform_structure(&ladder).unwrap();
    assert_eq!(out, again);
}

#[test]
fn denormalization_scales_by_reference_impedance() {
    let ladder = input_generation(3).unwrap();
    let out = transform_structure(&ladder).unwrap();
    let scaled = denormalize(&out, q(50, 1)).unwrap();
    assert_eq!(
        scaled,
        vec![
            Element::Shunt(q(100, 1)),
            Element::Line(q(100, 1)),
            Element::Shunt(q(50, 2)),
            Element::Line(q(100, 1)),
            Element::Shunt(q(100, 1)),
        ]
    );
    for e in &scaled {
        assert!(!matches!(e, Element::Series(_)));
        assert!(!matches!(e, Element::Load(_)));
    }
}

#[test]
fn denormalization_reports_unexpected_elements() {
    let bad = vec![Element::Line(q(1, 1)), Element::Series(q(2, 1))];
    assert_eq!(denormalize(&bad, q(50, 1)), Err(TransformError::UnexpectedElement));
    let load = vec![Element::Load(q(1, 1))];
    assert_eq!(denormalize(&load, q(50, 1)), Err(TransformError::UnexpectedElement));
}

#[test]
fn selector_reports_invalid_input() {
    let bad = vec![Element::Series(q(1, 1)), Element::Series(q(2, 1))];
    assert_eq!(transform_structure(&bad), Err(TransformError::InvalidInput));
}

#[test]
fn selector_handles_empty_and_single_element_ladders() {
    let empty: Vec<Element> = vec![];
    assert_eq!(transform_structure(&empty).unwrap(), vec![]);
    // A single series element (order 1): transformed once against an implicit
    // unit line.
    let one = input_generation(1).unwrap();
    let out = transform_structure(&one).unwrap();
    assert_eq!(out.len(), 2);
    match (&out[0], &out[1]) {
        (Element::Shunt(a), Element::Line(b)) => {
            // n = 1 + 1/2 = 3/2; shunt = 1 * n, line = 2 * n.
            assert!(same_value(*a, q(3, 2)));
            assert!(same_value(*b, q(3, 1)));
        },
        _ => panic!("unexpected shape for the order-1 result"),
    }
}

#[test]
fn overflow_is_reported_not_wrapped() {
    let huge = vec![
        Element::Series(Ratio { num: u128::MAX, den: 1 }),
        Element::Shunt(Ratio { num: u128::MAX, den: 1 }),
    ];
    assert_eq!(transform_structure(&huge), Err(TransformError::Overflow));
}

#[test]
fn exact_arithmetic_bounds_the_supported_orders() {
    // The exact transformed magnitudes of the four-decimal table rows need,
    // in lowest terms, components of 67 digits already at order 4 (and over a
    // thousand at order 10), so they exceed any 128-bit representation even
    // though every step reduces by the greatest common divisor; the engine
    // reports the overflow exactly where its contracts say so.
    let outcomes: Vec<bool> = (1..=10usize)
        .map(|order| transform_structure(&input_generation(order).unwrap()).is_ok())
        .collect();
    assert_eq!(
        outcomes,
        vec![true, true, true, false, false, false, false, false, false, false]
    );
}

#[test]
fn pair_transform_reports_unrepresentable_results() {
    let big = Ratio { num: u128::MAX, den: 1 };
    assert!(process_pair(Element::Line(big), Element::Series(big)).is_none());
}
