//! Points, segments and rings on the local plane.

use vstd::prelude::*;

verus! {

/// The largest absolute value a coordinate may take where the library does
/// arithmetic on positions: a little over 500 km, in millimetres.
pub const COORD_LIMIT: i64 = 0x2000_0000;

/// A position on the local plane, in millimetres.
#[derive(Clone, Copy, Debug, PartialEq, Eq, Structural)]
pub struct Coord {
    pub x: i64,
    pub y: i64,
}

impl Coord {
    /// Both coordinates lie within `COORD_LIMIT` of the origin.
    pub open spec fn in_range(self) -> bool {
        -COORD_LIMIT <= self.x <= COORD_LIMIT && -COORD_LIMIT <= self.y <= COORD_LIMIT
    }

    /// Tells whether both coordinates lie within `COORD_LIMIT` of the origin.
    pub fn is_in_range(&self) -> (ok: bool)
        ensures
            ok == self.in_range(),
    {
        -COORD_LIMIT <= self.x && self.x <= COORD_LIMIT && -COORD_LIMIT <= self.y && self.y
            <= COORD_LIMIT
    }
}

/// A straight segment from `start` to `end`.
#[derive(Clone, Copy, Debug, PartialEq, Eq, Structural)]
pub struct Line {
    pub start: Coord,
    pub end: Coord,
}

impl Line {
    /// Both ends lie within `COORD_LIMIT` of the origin.
    pub open spec fn in_range(self) -> bool {
        self.start.in_range() && self.end.in_range()
    }

    /// Tells whether both ends lie within `COORD_LIMIT` of the origin.
    pub fn is_in_range(&self) -> (ok: bool)
        ensures
            ok == self.in_range(),
    {
        self.start.is_in_range() && self.end.is_in_range()
    }
}

/// A simple polygon, given by its outer ring. The ring need not repeat its
/// first corner at the end.
#[derive(Debug)]
pub struct Polygon {
    pub exterior: Vec<Coord>,
}

impl Polygon {
    /// The corners of the outer ring, in order.
    pub open spec fn view(&self) -> Seq<Coord> {
        self.exterior@
    }
}

impl Clone for Polygon {
    fn clone(&self) -> (copy: Self)
        ensures
            copy@ == self@,
    {
        Polygon { exterior: self.exterior.clone() }
    }
}

/// Every position of `points` lies within `COORD_LIMIT` of the origin.
pub open spec fn all_in_range(points: Seq<Coord>) -> bool {
    forall|i: int| 0 <= i < points.len() ==> (#[trigger] points[i]).in_range()
}

/// Tells whether every position of `points` lies within `COORD_LIMIT` of the
/// origin.
pub fn are_in_range(points: &Vec<Coord>) -> (ok: bool)
    ensures
        ok == all_in_range(points@),
{
    let mut i: usize = 0;
    while i < points.len()
        invariant
            i <= points@.len(),
            forall|k: int| 0 <= k < i ==> (#[trigger] points@[k]).in_range(),
        decreases points@.len() - i,
    {
        if !points[i].is_in_range() {
            return false;
        }
        i += 1;
    }
    true
}

/// The sum of the `x` coordinates of `points`.
pub open spec fn sum_x(points: Seq<Coord>) -> int
    decreases points.len(),
{
    if points.len() == 0 {
        0
    } else {
        sum_x(points.drop_last()) + points.last().x
    }
}

/// The sum of the `y` coordinates of `points`.
pub open spec fn sum_y(points: Seq<Coord>) -> int
    decreases points.len(),
{
    if points.len() == 0 {
        0
    } else {
        sum_y(points.drop_last()) + points.last().y
    }
}

/// The arithmetic mean of `points`, each coordinate rounded down to a whole
/// millimetre.
pub open spec fn mean_point(points: Seq<Coord>) -> Coord
    recommends
        points.len() > 0,
{
    Coord {
        x: (sum_x(points) / (points.len() as int)) as i64,
        y: (sum_y(points) / (points.len() as int)) as i64,
    }
}

/// `a` divided by `n`, rounded down.
pub fn div_floor(a: i128, n: i128) -> (r: i128)
    requires
        n > 0,
    ensures
        r == (a as int) / (n as int),
{
    if a >= 0 {
        a / n
    } else {
        let b: i128 = -(a + 1);
        let m: i128 = b / n;
        proof {
            let r = (b as int) % (n as int);
            vstd::arithmetic::div_mod::lemma_fundamental_div_mod(b as int, n as int);
            assert(a == n * (-m - 1) + (n - r - 1)) by (nonlinear_arith)
                requires
                    b == -(a + 1),
                    b == n * m + r,
            ;
            vstd::arithmetic::div_mod::lemma_fundamental_div_mod_converse(
                a as int,
                n as int,
                -m - 1,
                n - r - 1,
            );
        }
        -m - 1
    }
}

/// The arithmetic mean of `pts`, each coordinate rounded down to a whole
/// millimetre.
pub fn average(pts: &Vec<Coord>) -> (mean: Coord)
    requires
        pts@.len() > 0,
    ensures
        mean == mean_point(pts@),
{
    let mut x: i128 = 0;
    let mut y: i128 = 0;
    let mut i: usize = 0;
    let limit: i128 = 0x8000_0000_0000_0000;
    while i < pts.len()
        invariant
            i <= pts@.len(),
            limit == 0x8000_0000_0000_0000,
            x == sum_x(pts@.subrange(0, i as int)),
            y == sum_y(pts@.subrange(0, i as int)),
            -(i * limit) <= x < i * limit || (i == 0 && x == 0),
            -(i * limit) <= y < i * limit || (i == 0 && y == 0),
        decreases pts@.len() - i,
    {
        proof {
            let longer = pts@.subrange(0, i + 1);
            assert(longer.drop_last() =~= pts@.subrange(0, i as int));
            assert(longer.last() == pts@[i as int]);
            assert((i + 1) * limit == i * limit + limit) by (nonlinear_arith);
            assert(i * limit <= 0xffff_ffff_ffff_ffff * limit) by (nonlinear_arith)
                requires
                    i <= 0xffff_ffff_ffff_ffff,
                    limit >= 0,
            ;
        }
        x = x + pts[i].x as i128;
        y = y + pts[i].y as i128;
        i += 1;
    }
    assert(pts@.subrange(0, pts@.len() as int) =~= pts@);
    let n: i128 = pts.len() as i128;
    let mx: i128 = div_floor(x, n);
    let my: i128 = div_floor(y, n);
    proof {
        assert(-limit <= mx < limit) by (nonlinear_arith)
            requires
                mx == (x as int) / (n as int),
                -(n * limit) <= x < n * limit,
                n > 0,
        ;
        assert(-limit <= my < limit) by (nonlinear_arith)
            requires
                my == (y as int) / (n as int),
                -(n * limit) <= y < n * limit,
                n > 0,
        ;
    }
    Coord { x: mx as i64, y: my as i64 }
}

} // verus!
