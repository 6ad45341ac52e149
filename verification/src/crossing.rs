//! Crossings between the segments that stand for edges.
//!
//! A segment runs from the slot of an edge at its source to its slot at its
//! target. Two segments cross where the lines through them meet in a point
//! that lies on both; parallel segments never cross.

use vstd::prelude::*;

verus! {

/// A slot: `x` is the layer, `y` the place within the layer.
#[derive(Clone, Copy, Debug, PartialEq, Eq, Structural)]
pub struct IVec2 {
    pub x: i32,
    pub y: i32,
}

/// Determinant of the directions of `p1 -> q1` and `p2 -> q2`; zero where
/// the two are parallel.
pub open spec fn determinant(p1: IVec2, q1: IVec2, p2: IVec2, q2: IVec2) -> int {
    (q1.x - p1.x) * (q2.y - p2.y) - (q1.y - p1.y) * (q2.x - p2.x)
}

/// The determinant times the factor along `p1 -> q1` at which the two lines
/// meet.
pub open spec fn lambda_numerator(p1: IVec2, q1: IVec2, p2: IVec2, q2: IVec2) -> int {
    (q2.y - p2.y) * (q2.x - p1.x) + (p2.x - q2.x) * (q2.y - p1.y)
}

/// The determinant times the factor along `p2 -> q2` at which the two lines
/// meet.
pub open spec fn gamma_numerator(p1: IVec2, q1: IVec2, p2: IVec2, q2: IVec2) -> int {
    (p1.y - q1.y) * (q2.x - p1.x) + (q1.x - p1.x) * (q2.y - p1.y)
}

/// The quotient `numerator / denominator` lies between 0 and 1, both
/// included.
pub open spec fn in_unit_interval(numerator: int, denominator: int) -> bool {
    if denominator > 0 {
        0 <= numerator <= denominator
    } else {
        denominator <= numerator <= 0
    }
}

/// The segments `p1 -> q1` and `p2 -> q2` are not parallel, and the point
/// where their lines meet lies on both.
pub open spec fn segments_intersect(p1: IVec2, q1: IVec2, p2: IVec2, q2: IVec2) -> bool {
    &&& determinant(p1, q1, p2, q2) != 0
    &&& in_unit_interval(lambda_numerator(p1, q1, p2, q2), determinant(p1, q1, p2, q2))
    &&& in_unit_interval(gamma_numerator(p1, q1, p2, q2), determinant(p1, q1, p2, q2))
}

/// Product of two coordinate differences.
fn product(a: i64, b: i64) -> (r: i128)
    requires
        -0x1_0000_0000 <= a <= 0x1_0000_0000,
        -0x1_0000_0000 <= b <= 0x1_0000_0000,
    ensures
        r == a * b,
        -0x1_0000_0000_0000_0000 <= r <= 0x1_0000_0000_0000_0000,
{
    assert(-0x1_0000_0000_0000_0000 <= a * b <= 0x1_0000_0000_0000_0000) by (nonlinear_arith)
        requires
            -0x1_0000_0000 <= a <= 0x1_0000_0000,
            -0x1_0000_0000 <= b <= 0x1_0000_0000,
    ;
    (a as i128) * (b as i128)
}

/// Whether the quotient of two numbers lies between 0 and 1.
fn within_unit(numerator: i128, denominator: i128) -> (r: bool)
    ensures
        r == in_unit_interval(numerator as int, denominator as int),
{
    if denominator > 0 {
        0 <= numerator && numerator <= denominator
    } else {
        denominator <= numerator && numerator <= 0
    }
}

/// Whether the segments `p1 -> q1` and `p2 -> q2` cross.
pub fn is_intersecting(p1: &IVec2, q1: &IVec2, p2: &IVec2, q2: &IVec2) -> (r: bool)
    ensures
        r == segments_intersect(*p1, *q1, *p2, *q2),
{
    let dx1: i64 = q1.x as i64 - p1.x as i64;
    let dy1: i64 = q1.y as i64 - p1.y as i64;
    let dx2: i64 = q2.x as i64 - p2.x as i64;
    let dy2: i64 = q2.y as i64 - p2.y as i64;
    let ex: i64 = q2.x as i64 - p1.x as i64;
    let ey: i64 = q2.y as i64 - p1.y as i64;
    let det: i128 = product(dx1, dy2) - product(dy1, dx2);
    if det == 0 {
        return false;
    }
    let lambda: i128 = product(dy2, ex) + product(-dx2, ey);
    let gamma: i128 = product(-dy1, ex) + product(dx1, ey);
    within_unit(lambda, det) && within_unit(gamma, det)
}

/// What is counted over the pairs of segments.
#[derive(Clone, Copy, Debug, PartialEq, Eq, Structural)]
pub enum Tally {
    /// One up for a pair that crosses, one down for a pair that does not.
    Cost,
    /// The pairs that cross.
    Crossings,
    /// The pairs in which a segment is missing.
    Unresolved,
}

/// What comes of scoring the segments of a layout.
#[derive(Clone, Copy, Debug, PartialEq, Eq, Structural)]
pub struct CrossingScore {
    /// Pairs that cross less pairs that do not.
    pub cost: i128,
    /// Pairs that cross.
    pub crossings: u128,
    /// Pairs passed over because a segment of the pair is missing.
    pub unresolved: u128,
}

/// What the pair of `a` and `b` adds to the tally.
pub open spec fn pair_term(
    what: Tally,
    a: Option<(IVec2, IVec2)>,
    b: Option<(IVec2, IVec2)>,
) -> int {
    match (a, b) {
        (Some(s), Some(t)) => if segments_intersect(s.0, s.1, t.0, t.1) {
            match what {
                Tally::Unresolved => 0,
                _ => 1,
            }
        } else {
            match what {
                Tally::Cost => -1,
                _ => 0,
            }
        },
        _ => match what {
            Tally::Unresolved => 1,
            _ => 0,
        },
    }
}

/// The tally over the pairs of segment `i` with those after it and before
/// `upto`.
pub open spec fn row_tally(
    what: Tally,
    slots: Seq<Option<(IVec2, IVec2)>>,
    i: int,
    upto: int,
) -> int
    decreases upto - i,
{
    if upto <= i + 1 {
        0
    } else {
        row_tally(what, slots, i, upto - 1) + pair_term(what, slots[i], slots[upto - 1])
    }
}

/// The tally over all pairs whose first segment is before `rows`.
pub open spec fn tally(what: Tally, slots: Seq<Option<(IVec2, IVec2)>>, rows: int) -> int
    decreases rows,
{
    if rows <= 0 {
        0
    } else {
        tally(what, slots, rows - 1) + row_tally(what, slots, rows - 1, slots.len() as int)
    }
}

/// Number of pairs, out of `len` segments, whose first is before `rows`.
pub open spec fn pairs_before(rows: int, len: int) -> int
    decreases rows,
{
    if rows <= 0 {
        0
    } else {
        pairs_before(rows - 1, len) + (len - rows)
    }
}

/// The pairs counted so far never exceed all pairs, and all pairs of as
/// many segments as a vector can hold can be counted in an `i128`.
proof fn lemma_pairs_bound(rows: int, len: int)
    requires
        0 <= rows <= len <= 0xffff_ffff_ffff_ffff,
    ensures
        0 <= pairs_before(rows, len) <= pairs_before(len, len),
        2 * pairs_before(rows, len) == rows * (2 * len - rows - 1),
        pairs_before(len, len) < 0x7fff_ffff_ffff_ffff_0000_0000_0000_0000,
{
    lemma_pairs_closed_form(rows, len);
    lemma_pairs_closed_form(len, len);
    assert(rows * (2 * len - rows - 1) <= len * (2 * len - len - 1)) by (nonlinear_arith)
        requires
            0 <= rows <= len,
    {
        assert(len * (len - 1) - rows * (2 * len - rows - 1) == (len - rows) * (len - rows - 1));
        assert((len - rows) * (len - rows - 1) >= 0);
    }
    assert(len * (2 * len - len - 1) <= 0xffff_ffff_ffff_ffff * 0xffff_ffff_ffff_fffe)
        by (nonlinear_arith)
        requires
            0 <= len <= 0xffff_ffff_ffff_ffff,
    ;
    assert(rows * (2 * len - rows - 1) >= 0) by (nonlinear_arith)
        requires
            0 <= rows <= len,
    ;
}

proof fn lemma_pairs_closed_form(rows: int, len: int)
    requires
        0 <= rows,
    ensures
        2 * pairs_before(rows, len) == rows * (2 * len - rows - 1),
    decreases rows,
{
    if rows > 0 {
        lemma_pairs_closed_form(rows - 1, len);
        assert((rows - 1) * (2 * len - (rows - 1) - 1) + 2 * (len - rows) == rows * (2 * len - rows
            - 1)) by (nonlinear_arith);
    } else {
        assert(rows * (2 * len - rows - 1) == 0) by (nonlinear_arith)
            requires
                rows == 0,
        ;
    }
}

/// A row adds at most one per pair, either way.
proof fn lemma_row_tally_bound(what: Tally, slots: Seq<Option<(IVec2, IVec2)>>, i: int, upto: int)
    requires
        i < upto,
    ensures
        -(upto - i - 1) <= row_tally(what, slots, i, upto) <= upto - i - 1,
        what != Tally::Cost ==> row_tally(what, slots, i, upto) >= 0,
    decreases upto - i,
{
    if upto > i + 1 {
        lemma_row_tally_bound(what, slots, i, upto - 1);
    }
}

/// The tally adds at most one per pair, either way.
proof fn lemma_tally_bound(what: Tally, slots: Seq<Option<(IVec2, IVec2)>>, rows: int)
    requires
        0 <= rows <= slots.len(),
    ensures
        -pairs_before(rows, slots.len() as int) <= tally(what, slots, rows) <= pairs_before(
            rows,
            slots.len() as int,
        ),
        what != Tally::Cost ==> tally(what, slots, rows) >= 0,
    decreases rows,
{
    if rows > 0 {
        lemma_tally_bound(what, slots, rows - 1);
        lemma_row_tally_bound(what, slots, rows - 1, slots.len() as int);
    }
}

/// Every pair is counted once: it crosses, or it does not, or a segment of
/// it is missing. So the cost is the crossings less the other resolved
/// pairs.
pub proof fn lemma_tallies_add_up(slots: Seq<Option<(IVec2, IVec2)>>, rows: int)
    requires
        0 <= rows <= slots.len(),
    ensures
        tally(Tally::Cost, slots, rows) == 2 * tally(Tally::Crossings, slots, rows) + tally(
            Tally::Unresolved,
            slots,
            rows,
        ) - pairs_before(rows, slots.len() as int),
    decreases rows,
{
    if rows > 0 {
        lemma_tallies_add_up(slots, rows - 1);
        lemma_row_tallies_add_up(slots, rows - 1, slots.len() as int);
    }
}

proof fn lemma_row_tallies_add_up(slots: Seq<Option<(IVec2, IVec2)>>, i: int, upto: int)
    requires
        i < upto,
    ensures
        row_tally(Tally::Cost, slots, i, upto) == 2 * row_tally(Tally::Crossings, slots, i, upto)
            + row_tally(Tally::Unresolved, slots, i, upto) - (upto - i - 1),
    decreases upto - i,
{
    if upto > i + 1 {
        lemma_row_tallies_add_up(slots, i, upto - 1);
    }
}

/// Scores the segments pair by pair.
///
/// Each pair of two segments counts once. A pair that crosses raises the
/// cost by one, a pair that does not lowers it by one. A pair in which a
/// segment is missing is passed over and counted as unresolved.
pub fn score(slots: &Vec<Option<(IVec2, IVec2)>>) -> (r: CrossingScore)
    ensures
        r.cost == tally(Tally::Cost, slots@, slots.len() as int),
        r.crossings == tally(Tally::Crossings, slots@, slots.len() as int),
        r.unresolved == tally(Tally::Unresolved, slots@, slots.len() as int),
{
    let len = slots.len();
    let mut cost: i128 = 0;
    let mut crossings: u128 = 0;
    let mut unresolved: u128 = 0;
    let mut i: usize = 0;
    while i < len
        invariant
            len == slots.len(),
            i <= len,
            cost == tally(Tally::Cost, slots@, i as int),
            crossings == tally(Tally::Crossings, slots@, i as int),
            unresolved == tally(Tally::Unresolved, slots@, i as int),
        decreases len - i,
    {
        let mut row_cost: i128 = 0;
        let mut row_crossings: u128 = 0;
        let mut row_unresolved: u128 = 0;
        let mut j: usize = i + 1;
        while j < len
            invariant
                len == slots.len(),
                i < len,
                i < j <= len,
                row_cost == row_tally(Tally::Cost, slots@, i as int, j as int),
                row_crossings == row_tally(Tally::Crossings, slots@, i as int, j as int),
                row_unresolved == row_tally(Tally::Unresolved, slots@, i as int, j as int),
            decreases len - j,
        {
            proof {
                lemma_row_tally_bound(Tally::Cost, slots@, i as int, j as int);
                lemma_row_tally_bound(Tally::Crossings, slots@, i as int, j as int);
                lemma_row_tally_bound(Tally::Unresolved, slots@, i as int, j as int);
            }
            match (slots[i], slots[j]) {
                (Some(s), Some(t)) => {
                    if is_intersecting(&s.0, &s.1, &t.0, &t.1) {
                        row_cost = row_cost + 1;
                        row_crossings = row_crossings + 1;
                    } else {
                        row_cost = row_cost - 1;
                    }
                },
                _ => {
                    row_unresolved = row_unresolved + 1;
                },
            }
            j = j + 1;
        }
        proof {
            lemma_tally_bound(Tally::Cost, slots@, i as int);
            lemma_tally_bound(Tally::Crossings, slots@, i as int);
            lemma_tally_bound(Tally::Unresolved, slots@, i as int);
            lemma_tally_bound(Tally::Cost, slots@, i + 1);
            lemma_tally_bound(Tally::Crossings, slots@, i + 1);
            lemma_tally_bound(Tally::Unresolved, slots@, i + 1);
            lemma_pairs_bound(i + 1, len as int);
        }
        cost = cost + row_cost;
        crossings = crossings + row_crossings;
        unresolved = unresolved + row_unresolved;
        i = i + 1;
    }
    CrossingScore { cost, crossings, unresolved }
}

} // verus!
