use charts::crossing::{is_intersecting, score, CrossingScore, IVec2};

fn at(x: i32, y: i32) -> IVec2 {
    IVec2 { x, y }
}

#[test]
fn diagonals_of_a_square_cross() {
    assert!(is_intersecting(&at(0, 0), &at(1, 1), &at(0, 1), &at(1, 0)));
}

#[test]
fn parallel_segments_do_not_cross() {
    assert!(!is_intersecting(&at(0, 0), &at(1, 0), &at(0, 1), &at(1, 1)));
    // on one line, overlapping
    assert!(!is_intersecting(&at(0, 0), &at(2, 0), &at(1, 0), &at(3, 0)));
}

#[test]
fn segments_that_share_an_end_cross() {
    assert!(is_intersecting(&at(0, 0), &at(1, 0), &at(0, 0), &at(1, 1)));
    assert!(is_intersecting(&at(0, 0), &at(1, 1), &at(0, 2), &at(1, 1)));
}

#[test]
fn lines_that_meet_beyond_a_segment_do_not_cross() {
    // the lines meet at (3, 3), beyond both segments
    assert!(!is_intersecting(&at(0, 0), &at(1, 1), &at(0, 6), &at(1, 5)));
    // the first segment stops short of the second: a quotient of 3/2 must
    // not count as 1
    assert!(!is_intersecting(&at(0, 0), &at(2, 0), &at(3, -1), &at(3, 1)));
    assert!(is_intersecting(&at(0, 0), &at(3, 0), &at(3, -1), &at(3, 1)));
}

#[test]
fn far_apart_coordinates_do_not_overflow() {
    let lo = i32::MIN;
    let hi = i32::MAX;
    assert!(is_intersecting(&at(lo, lo), &at(hi, hi), &at(lo, hi), &at(hi, lo)));
    assert!(!is_intersecting(&at(lo, lo), &at(hi, lo), &at(lo, hi), &at(hi, hi)));
}

#[test]
fn score_counts_each_pair_once() {
    let slots = vec![
        Some((at(0, 0), at(1, 1))),
        Some((at(0, 1), at(1, 0))),
        Some((at(0, 2), at(1, 2))),
        None,
    ];
    // pairs: (0,1) cross; (0,2) and (1,2) do not; three pairs with the
    // missing segment
    assert_eq!(score(&slots), CrossingScore { cost: -1, crossings: 1, unresolved: 3 });
}

#[test]
fn score_of_nothing_is_zero() {
    assert_eq!(score(&vec![]), CrossingScore { cost: 0, crossings: 0, unresolved: 0 });
    assert_eq!(
        score(&vec![Some((at(0, 0), at(1, 1)))]),
        CrossingScore { cost: 0, crossings: 0, unresolved: 0 }
    );
}
