//! Geometry primitives: distances, the nearest boundary crossing, the
//! corridor ring, and the intersection tests that the `geo` crate decides.

use crate::geometry::{all_in_range, Coord, Line, Polygon};
use geo::Intersects;
use vstd::prelude::*;

verus! {

/// Whether the polygon with the outer ring `ring` and the segment `line`
/// share a point, as the `geo` crate decides it on whole coordinates.
pub uninterp spec fn ring_meets_line(ring: Seq<Coord>, line: Line) -> bool;

/// Whether the polygon with the outer ring `ring` and the line string `path`
/// share a point, as the `geo` crate decides it on whole coordinates.
pub uninterp spec fn ring_meets_path(ring: Seq<Coord>, path: Seq<Coord>) -> bool;

/// Calls `geo::Intersects::intersects` on a `geo::Polygon<i64>` without holes
/// and a `geo::Line<i64>`. The answer depends on the ring and the segment
/// alone, so it is given the name `ring_meets_line`; nothing more is claimed
/// of it. Within `geometry::COORD_LIMIT` the cross products that `geo` forms on `i64`
/// stay below 2^62 in size.
#[verifier::external_body]
pub(crate) fn polygon_intersects_line(polygon: &Polygon, line: &Line) -> (meets: bool)
    requires
        all_in_range(polygon@),
        line.in_range(),
    ensures
        meets == ring_meets_line(polygon@, *line),
{
    let ring: Vec<(i64, i64)> = polygon.exterior.iter().map(|c| (c.x, c.y)).collect();
    let area = geo::Polygon::new(geo::LineString::from(ring), Vec::new());
    let segment = geo::Line::new((line.start.x, line.start.y), (line.end.x, line.end.y));
    area.intersects(&segment)
}

/// Calls `geo::Intersects::intersects` on a `geo::Polygon<i64>` without holes
/// and a `geo::LineString<i64>`. The answer depends on the ring and the path
/// alone, so it is given the name `ring_meets_path`; nothing more is claimed
/// of it. Within `geometry::COORD_LIMIT` the cross products that `geo` forms on `i64`
/// stay below 2^62 in size.
#[verifier::external_body]
pub(crate) fn polygon_intersects_linestring(polygon: &Polygon, path: &Vec<Coord>) -> (meets: bool)
    requires
        all_in_range(polygon@),
        all_in_range(path@),
    ensures
        meets == ring_meets_path(polygon@, path@),
{
    let ring: Vec<(i64, i64)> = polygon.exterior.iter().map(|c| (c.x, c.y)).collect();
    let area = geo::Polygon::new(geo::LineString::from(ring), Vec::new());
    let points: Vec<(i64, i64)> = path.iter().map(|c| (c.x, c.y)).collect();
    area.intersects(&geo::LineString::from(points))
}

/// The square of the distance between `a` and `b`.
pub open spec fn dist2(a: Coord, b: Coord) -> int {
    (a.x - b.x) * (a.x - b.x) + (a.y - b.y) * (a.y - b.y)
}

/// The square of the distance between `a` and `b`, in square millimetres.
pub fn squared_distance(a: Coord, b: Coord) -> (d: u64)
    requires
        a.in_range(),
        b.in_range(),
    ensures
        d == dist2(a, b),
        d <= 0x2000_0000_0000_0000,
{
    let dx: i64 = a.x - b.x;
    let dy: i64 = a.y - b.y;
    assert(dx * dx <= 0x1000_0000_0000_0000 && dx * dx >= 0) by (nonlinear_arith)
        requires
            -0x4000_0000 <= dx <= 0x4000_0000,
    ;
    assert(dy * dy <= 0x1000_0000_0000_0000 && dy * dy >= 0) by (nonlinear_arith)
        requires
            -0x4000_0000 <= dy <= 0x4000_0000,
    ;
    (dx * dx + dy * dy) as u64
}

/// `root` is the square root of `n`, rounded down.
pub open spec fn is_floor_sqrt(n: int, root: int) -> bool {
    0 <= root && root * root <= n < (root + 1) * (root + 1)
}

/// The square root of `n`, rounded down.
pub fn floor_sqrt(n: u64) -> (root: u64)
    requires
        n <= 0x2000_0000_0000_0000,
    ensures
        is_floor_sqrt(n as int, root as int),
{
    let mut lo: u64 = 0;
    let mut hi: u64 = 0x8000_0000;
    assert(0x8000_0000 * 0x8000_0000 == 0x4000_0000_0000_0000) by (nonlinear_arith);
    while hi - lo > 1
        invariant
            lo < hi <= 0x8000_0000,
            lo * lo <= n < hi * hi,
        decreases hi - lo,
    {
        let mid: u64 = lo + (hi - lo) / 2;
        assert(mid * mid <= 0x4000_0000_0000_0000) by (nonlinear_arith)
            requires
                mid <= 0x8000_0000,
        ;
        if mid * mid <= n {
            lo = mid;
        } else {
            hi = mid;
        }
    }
    lo
}

/// The length of `line`, rounded down to a whole millimetre.
pub fn euclidean_length(line: &Line) -> (length: u64)
    requires
        line.in_range(),
    ensures
        is_floor_sqrt(dist2(line.start, line.end), length as int),
{
    floor_sqrt(squared_distance(line.start, line.end))
}

/// A number has one square root rounded down.
pub proof fn lemma_floor_sqrt_unique(n: int, a: int, b: int)
    requires
        is_floor_sqrt(n, a),
        is_floor_sqrt(n, b),
    ensures
        a == b,
{
    if a < b {
        assert((a + 1) * (a + 1) <= b * b) by (nonlinear_arith)
            requires
                0 <= a,
                a + 1 <= b,
        ;
    }
    if b < a {
        assert((b + 1) * (b + 1) <= a * a) by (nonlinear_arith)
            requires
                0 <= b,
                b + 1 <= a,
        ;
    }
}

/// The distance between `a` and `b`, rounded down to a whole millimetre.
pub open spec fn distance(a: Coord, b: Coord) -> int {
    choose|root: int| is_floor_sqrt(dist2(a, b), root)
}

/// The length of the line string `points`: the sum of the distances, each
/// rounded down, between its neighbouring positions.
pub open spec fn path_length(points: Seq<Coord>) -> int
    decreases points.len(),
{
    if points.len() < 2 {
        0
    } else {
        path_length(points.drop_last()) + distance(points[points.len() - 2], points.last())
    }
}

/// The length of a line string is not negative.
pub proof fn lemma_path_length_bounds(points: Seq<Coord>)
    ensures
        path_length(points) >= 0,
    decreases points.len(),
{
    if points.len() >= 2 {
        lemma_path_length_bounds(points.drop_last());
        let a = points[points.len() - 2];
        let b = points.last();
        lemma_distance_exists(a, b);
    }
}

/// Every two positions have a distance.
pub proof fn lemma_distance_exists(a: Coord, b: Coord)
    ensures
        is_floor_sqrt(dist2(a, b), distance(a, b)),
{
    let n = dist2(a, b);
    assert(n >= 0) by (nonlinear_arith)
        requires
            n == (a.x - b.x) * (a.x - b.x) + (a.y - b.y) * (a.y - b.y),
    ;
    lemma_floor_sqrt_exists(n);
}

/// Every number from zero on has a square root rounded down.
pub proof fn lemma_floor_sqrt_exists(n: int)
    requires
        n >= 0,
    ensures
        exists|root: int| is_floor_sqrt(n, root),
    decreases n,
{
    if n == 0 {
        assert(is_floor_sqrt(0, 0));
    } else {
        let m = n - 1;
        lemma_floor_sqrt_exists(m);
        let r = choose|root: int| is_floor_sqrt(m, root);
        if (r + 1) * (r + 1) <= n {
            assert((r + 2) * (r + 2) > n) by (nonlinear_arith)
                requires
                    n - 1 < (r + 1) * (r + 1),
                    r >= 0,
            ;
            assert(is_floor_sqrt(n, r + 1));
        } else {
            assert(is_floor_sqrt(n, r));
        }
    }
}

/// The distance between `a` and `b`, rounded down to a whole millimetre,
/// and the greatest `u64` where the distance is greater. Unlike
/// `euclidean_length` it takes positions out of range.
pub fn distance_saturating(a: Coord, b: Coord) -> (d: u64)
    ensures
        d == (if distance(a, b) > u64::MAX {
            u64::MAX as int
        } else {
            distance(a, b)
        }),
{
    let dx: u128 = (if a.x >= b.x {
        a.x as i128 - b.x as i128
    } else {
        b.x as i128 - a.x as i128
    }) as u128;
    let dy: u128 = (if a.y >= b.y {
        a.y as i128 - b.y as i128
    } else {
        b.y as i128 - a.y as i128
    }) as u128;
    let big: u128 = 0x1_0000_0000_0000_0000;
    proof {
        lemma_distance_exists(a, b);
        assert(dist2(a, b) == dx * dx + dy * dy) by (nonlinear_arith)
            requires
                dx == a.x - b.x || dx == b.x - a.x,
                dy == a.y - b.y || dy == b.y - a.y,
                dist2(a, b) == (a.x - b.x) * (a.x - b.x) + (a.y - b.y) * (a.y - b.y),
        ;
        assert(dx * dx <= 0xffff_ffff_ffff_ffff * 0xffff_ffff_ffff_ffff) by (nonlinear_arith)
            requires
                0 <= dx <= 0xffff_ffff_ffff_ffff,
        ;
        assert(dy * dy <= 0xffff_ffff_ffff_ffff * 0xffff_ffff_ffff_ffff) by (nonlinear_arith)
            requires
                0 <= dy <= 0xffff_ffff_ffff_ffff,
        ;
        assert(0xffff_ffff_ffff_ffff * 0xffff_ffff_ffff_ffff
            == 0xffff_ffff_ffff_fffe_0000_0000_0000_0001) by (nonlinear_arith);
        assert(big * big == 0x1_0000_0000_0000_0000_0000_0000_0000_0000) by (nonlinear_arith)
            requires
                big == 0x1_0000_0000_0000_0000,
        ;
    }
    let x2: u128 = dx * dx;
    let y2: u128 = dy * dy;
    let n: u128 = match x2.checked_add(y2) {
        Some(n) => n,
        None => {
            proof {
                let r = distance(a, b);
                if r < big {
                    assert((r + 1) * (r + 1) <= big * big) by (nonlinear_arith)
                        requires
                            0 <= r,
                            r + 1 <= big,
                    ;
                }
            }
            return u64::MAX;
        },
    };
    let mut lo: u128 = 0;
    let mut hi: u128 = big;
    while hi - lo > 1
        invariant
            lo < hi <= big,
            big == 0x1_0000_0000_0000_0000,
            lo * lo <= n < hi * hi || (hi == big && lo * lo <= n),
        decreases hi - lo,
    {
        let mid: u128 = lo + (hi - lo) / 2;
        assert(mid * mid <= 0xffff_ffff_ffff_ffff * 0xffff_ffff_ffff_ffff) by (nonlinear_arith)
            requires
                0 <= mid <= 0xffff_ffff_ffff_ffff,
        ;
        assert(0xffff_ffff_ffff_ffff * 0xffff_ffff_ffff_ffff
            == 0xffff_ffff_ffff_fffe_0000_0000_0000_0001) by (nonlinear_arith);
        if mid * mid <= n {
            lo = mid;
        } else {
            hi = mid;
        }
    }
    proof {
        // n is below 2^128, so its root is below 2^64.
        assert(big * big == 0x1_0000_0000_0000_0000_0000_0000_0000_0000) by (nonlinear_arith)
            requires
                big == 0x1_0000_0000_0000_0000,
        ;
        assert(is_floor_sqrt(n as int, lo as int));
        lemma_floor_sqrt_unique(n as int, lo as int, distance(a, b));
    }
    lo as u64
}

/// The length of the line string `points`, and the greatest `u64` where the
/// length is greater.
pub fn linestring_length(points: &Vec<Coord>) -> (length: u64)
    ensures
        length == (if path_length(points@) > u64::MAX {
            u64::MAX as int
        } else {
            path_length(points@)
        }),
{
    if points.len() < 2 {
        return 0;
    }
    let mut length: u64 = 0;
    let mut i: usize = 1;
    assert(path_length(points@.subrange(0, 1)) == 0);
    while i < points.len()
        invariant
            1 <= i <= points@.len(),
            length == (if path_length(points@.subrange(0, i as int)) > u64::MAX {
                u64::MAX as int
            } else {
                path_length(points@.subrange(0, i as int))
            }),
        decreases points@.len() - i,
    {
        proof {
            let longer = points@.subrange(0, i + 1);
            assert(longer.drop_last() =~= points@.subrange(0, i as int));
            assert(longer[longer.len() - 2] == points@[i - 1]);
            assert(longer.last() == points@[i as int]);
            lemma_path_length_bounds(points@.subrange(0, i as int));
            lemma_distance_exists(points@[i - 1], points@[i as int]);
        }
        let d: u64 = distance_saturating(points[i - 1], points[i]);
        length = length.saturating_add(d);
        i += 1;
    }
    assert(points@.subrange(0, points@.len() as int) =~= points@);
    length
}

/// `k` is the place of the crossing nearest to `start`: no crossing is
/// nearer, and the ones before it are farther.
pub open spec fn is_nearest(start: Coord, crossings: Seq<Coord>, k: int) -> bool {
    &&& 0 <= k < crossings.len()
    &&& forall|j: int|
        0 <= j < crossings.len() ==> dist2(start, crossings[k]) <= dist2(
            start,
            #[trigger] crossings[j],
        )
    &&& forall|j: int|
        0 <= j < k ==> dist2(start, crossings[k]) < dist2(start, #[trigger] crossings[j])
}

/// The part of `line` from its start to the nearest of the places where it
/// crosses the boundary of a polygon; none where it crosses nowhere. Of
/// several nearest crossings the first counts.
pub fn split_line_by_polygon(line: Line, crossings: &Vec<Coord>) -> (shortened: Option<Line>)
    requires
        line.start.in_range(),
        all_in_range(crossings@),
    ensures
        match shortened {
            Some(part) => part.start == line.start && exists|k: int|
                is_nearest(line.start, crossings@, k) && part.end == #[trigger] crossings@[k],
            None => crossings@.len() == 0,
        },
{
    if crossings.len() == 0 {
        return None;
    }
    let mut best: usize = 0;
    let mut best_d: u64 = squared_distance(line.start, crossings[0]);
    let mut i: usize = 1;
    while i < crossings.len()
        invariant
            1 <= i <= crossings@.len(),
            line.start.in_range(),
            all_in_range(crossings@),
            best < i,
            best_d == dist2(line.start, crossings@[best as int]),
            forall|j: int|
                0 <= j < i ==> best_d <= dist2(line.start, #[trigger] crossings@[j]),
            forall|j: int|
                0 <= j < best ==> best_d < dist2(line.start, #[trigger] crossings@[j]),
        decreases crossings@.len() - i,
    {
        let d: u64 = squared_distance(line.start, crossings[i]);
        if d < best_d {
            best = i;
            best_d = d;
        }
        i += 1;
    }
    assert(is_nearest(line.start, crossings@, best as int));
    Some(Line { start: line.start, end: crossings[best] })
}

/// The ring of a corridor: the left offset curve walked backwards, then the
/// right offset curve.
pub open spec fn corridor_ring(left: Seq<Coord>, right: Seq<Coord>) -> Seq<Coord> {
    left.reverse() + right
}

/// Glues the two offset curves of a centerline into the polygon between
/// them; none where either curve could not be had.
pub fn buffer_linestring(left: Option<Vec<Coord>>, right: Option<Vec<Coord>>) -> (corridor: Option<
    Polygon,
>)
    ensures
        match corridor {
            Some(polygon) => left.is_some() && right.is_some() && polygon@ == corridor_ring(
                left.unwrap()@,
                right.unwrap()@,
            ),
            None => left.is_none() || right.is_none(),
        },
{
    match (left, right) {
        (Some(left_curve), Some(right_curve)) => {
            let mut pts: Vec<Coord> = Vec::new();
            let mut i: usize = left_curve.len();
            while i > 0
                invariant
                    i <= left_curve@.len(),
                    pts@.len() == left_curve@.len() - i,
                    forall|k: int|
                        0 <= k < pts@.len() ==> #[trigger] pts@[k] == left_curve@[left_curve@.len()
                            - 1 - k],
                decreases i,
            {
                i -= 1;
                pts.push(left_curve[i]);
            }
            assert(pts@ =~= left_curve@.reverse());
            let mut j: usize = 0;
            while j < right_curve.len()
                invariant
                    j <= right_curve@.len(),
                    pts@ == left_curve@.reverse() + right_curve@.subrange(0, j as int),
                decreases right_curve@.len() - j,
            {
                pts.push(right_curve[j]);
                assert(pts@ =~= left_curve@.reverse() + right_curve@.subrange(0, j + 1));
                j += 1;
            }
            assert(right_curve@.subrange(0, right_curve@.len() as int) =~= right_curve@);
            Some(Polygon { exterior: pts })
        },
        _ => None,
    }
}

} // verus!
