//! Corridor widths: how far a road can spread to either side before it
//! meets a building, and which other roads run beside it.
//!
//! Lengths are millimetres, angles are millionths of a degree.

use crate::geometry::{all_in_range, are_in_range, div_floor, Coord, Line, Polygon};
use crate::math::{
    buffer_linestring, corridor_ring, dist2, euclidean_length, is_floor_sqrt, is_nearest,
    polygon_intersects_line, polygon_intersects_linestring, ring_meets_line, ring_meets_path,
    split_line_by_polygon,
};
use crate::{Building, MapModel, Road, RoadID};
use vstd::prelude::*;

verus! {

/// The distance between two samples of a centerline: one metre.
pub const STEP_SIZE: u64 = 1_000;

/// How far from a centerline a building is looked for: 25 metres.
pub const PROJECT_AWAY: u64 = 25_000;

/// A full turn and a half turn.
pub const FULL_TURN: i64 = 360_000_000;

pub const HALF_TURN: i64 = 180_000_000;

/// How far the mean headings of two roads may differ for the roads to count
/// as parallel: ten degrees.
pub const PARALLEL_TOLERANCE: i64 = 10_000_000;

/// A ray across the road from one sample of its centerline, and what it hit.
#[derive(Clone, Copy, Debug)]
pub struct TestLine {
    /// To the left of the road; to the right if false.
    pub left: bool,
    pub full_line: Line,
    /// Where the ray hits a building: the ray cut off at the hit, and the
    /// length of that part.
    pub hit: Option<(Line, u64)>,
}

/// A ray to be cast, with the places where it crosses the outer ring of
/// each building, one list for each building of the map in order.
#[derive(Debug)]
pub struct Ray {
    pub left: bool,
    pub full_line: Line,
    pub crossings: Vec<Vec<Coord>>,
}

/// A road found to run beside the measured road, with the mean headings of
/// the two.
#[derive(Debug)]
pub struct ParallelRoad {
    pub road: RoadID,
    pub linestring: Vec<Coord>,
    pub subject_angle: i64,
    pub angle: i64,
}

/// What measuring one road gives.
#[derive(Debug)]
pub struct Output {
    pub test_lines: Vec<TestLine>,
    pub max_left_width: u64,
    pub max_right_width: u64,
    pub buffered_polygon: Option<Polygon>,
    pub parallel_roads: Vec<ParallelRoad>,
}

/// The sum of `angles`.
pub open spec fn sum_angles(angles: Seq<i64>) -> int
    decreases angles.len(),
{
    if angles.len() == 0 {
        0
    } else {
        sum_angles(angles.drop_last()) + angles.last()
    }
}

/// The mean of `angles`, rounded down; none of no angles.
pub open spec fn mean_angle(angles: Seq<i64>) -> Option<i64> {
    if angles.len() == 0 {
        None
    } else {
        Some((sum_angles(angles) / (angles.len() as int)) as i64)
    }
}

/// The mean of the headings of the segments of a line string, rounded down
/// to a millionth of a degree; none where there is no segment.
pub fn average_angle(angles: &Vec<i64>) -> (mean: Option<i64>)
    ensures
        mean == mean_angle(angles@),
{
    if angles.len() == 0 {
        return None;
    }
    let mut sum: i128 = 0;
    let mut i: usize = 0;
    let limit: i128 = 0x8000_0000_0000_0000;
    while i < angles.len()
        invariant
            i <= angles@.len(),
            limit == 0x8000_0000_0000_0000,
            sum == sum_angles(angles@.subrange(0, i as int)),
            -(i * limit) <= sum < i * limit || (i == 0 && sum == 0),
        decreases angles@.len() - i,
    {
        proof {
            let longer = angles@.subrange(0, i + 1);
            assert(longer.drop_last() =~= angles@.subrange(0, i as int));
            assert(longer.last() == angles@[i as int]);
            assert((i + 1) * limit == i * limit + limit) by (nonlinear_arith);
            assert(i * limit <= 0xffff_ffff_ffff_ffff * limit) by (nonlinear_arith)
                requires
                    i <= 0xffff_ffff_ffff_ffff,
                    limit >= 0,
            ;
        }
        sum = sum + angles[i] as i128;
        i += 1;
    }
    assert(angles@.subrange(0, angles@.len() as int) =~= angles@);
    let n: i128 = angles.len() as i128;
    let mean: i128 = div_floor(sum, n);
    proof {
        assert(-limit <= mean < limit) by (nonlinear_arith)
            requires
                mean == (sum as int) / (n as int),
                -(n * limit) <= sum < n * limit,
                n > 0,
        ;
    }
    Some(mean as i64)
}

/// The turn from the heading `angle2` to the heading `angle1` by the shorter
/// way round: the difference of the two, brought into the range from
/// `-HALF_TURN`, exclusive, to `HALF_TURN`, inclusive.
pub open spec fn rotation(angle1: int, angle2: int) -> int {
    let r = (angle1 - angle2) % (FULL_TURN as int);
    if r > HALF_TURN {
        r - FULL_TURN
    } else {
        r
    }
}

/// The turn from the heading `angle2` to the heading `angle1` by the shorter
/// way round.
pub fn shortest_rotation(angle1: i64, angle2: i64) -> (turn: i64)
    ensures
        turn == rotation(angle1 as int, angle2 as int),
        -HALF_TURN < turn <= HALF_TURN,
{
    let d: i128 = angle1 as i128 - angle2 as i128;
    let full: i128 = FULL_TURN as i128;
    let mut r: i128 = 0;
    if d >= 0 {
        r = d % full;
    } else {
        let m: i128 = (-d) % full;
        proof {
            let q = (-d) / (full as int);
            vstd::arithmetic::div_mod::lemma_fundamental_div_mod(-d as int, full as int);
            if m == 0 {
                assert(d == full * (-q) + 0) by (nonlinear_arith)
                    requires
                        -d == full * q + m,
                        m == 0,
                ;
                vstd::arithmetic::div_mod::lemma_fundamental_div_mod_converse(
                    d as int,
                    full as int,
                    -q,
                    0,
                );
            } else {
                assert(d == full * (-q - 1) + (full - m)) by (nonlinear_arith)
                    requires
                        -d == full * q + m,
                ;
                vstd::arithmetic::div_mod::lemma_fundamental_div_mod_converse(
                    d as int,
                    full as int,
                    -q - 1,
                    full - m,
                );
            }
        }
        if m != 0 {
            r = full - m;
        }
    }
    if r > HALF_TURN as i128 {
        (r - full) as i64
    } else {
        r as i64
    }
}

/// Turning back is turning as far the other way, but for the half turn,
/// which is a half turn either way.
pub proof fn lemma_rotation_reversed(angle1: int, angle2: int)
    ensures
        -HALF_TURN < rotation(angle1, angle2) <= HALF_TURN,
        rotation(angle2, angle1) == (if rotation(angle1, angle2) == HALF_TURN {
            HALF_TURN as int
        } else {
            -rotation(angle1, angle2)
        }),
{
    let full = FULL_TURN as int;
    let d = angle1 - angle2;
    let q = d / full;
    let r = d % full;
    vstd::arithmetic::div_mod::lemma_fundamental_div_mod(d, full);
    if r == 0 {
        assert(-d == full * (-q) + 0) by (nonlinear_arith)
            requires
                d == full * q + r,
                r == 0,
        ;
        vstd::arithmetic::div_mod::lemma_fundamental_div_mod_converse(-d, full, -q, 0);
    } else {
        assert(-d == full * (-q - 1) + (full - r)) by (nonlinear_arith)
            requires
                d == full * q + r,
        ;
        vstd::arithmetic::div_mod::lemma_fundamental_div_mod_converse(
            -d,
            full,
            -q - 1,
            full - r,
        );
    }
    assert(angle2 - angle1 == -d);
}

/// Whether two line strings are nearly parallel does not depend on which of
/// them is named first.
pub proof fn lemma_nearly_parallel_symmetric(angles1: Seq<i64>, angles2: Seq<i64>, epsilon: int)
    ensures
        are_nearly_parallel(angles1, angles2, epsilon) == are_nearly_parallel(
            angles2,
            angles1,
            epsilon,
        ),
{
    match (mean_angle(angles1), mean_angle(angles2)) {
        (Some(a), Some(b)) => {
            lemma_rotation_reversed(a as int, b as int);
        },
        _ => {},
    }
}

/// The mean headings of two line strings differ by less than `epsilon`,
/// turning the shorter way round. A line string without segments is parallel
/// to nothing.
pub open spec fn are_nearly_parallel(angles1: Seq<i64>, angles2: Seq<i64>, epsilon: int) -> bool {
    match (mean_angle(angles1), mean_angle(angles2)) {
        (Some(a), Some(b)) => -epsilon < rotation(a as int, b as int) < epsilon,
        _ => false,
    }
}

/// Tells whether the mean headings of two line strings, given by the
/// headings of their segments, differ by less than `epsilon`.
pub fn nearly_parallel(angles1: &Vec<i64>, angles2: &Vec<i64>, epsilon: i64) -> (parallel: bool)
    ensures
        parallel == are_nearly_parallel(angles1@, angles2@, epsilon as int),
{
    match (average_angle(angles1), average_angle(angles2)) {
        (Some(a), Some(b)) => {
            let turn: i64 = shortest_rotation(a, b);
            if epsilon <= 0 {
                false
            } else {
                -epsilon < turn && turn < epsilon
            }
        },
        _ => false,
    }
}

/// `hit` is what a ray `line` hits on a building whose outer ring it crosses
/// at `crossings`: the ray cut off at the nearest crossing, and the length
/// of that part rounded down.
pub open spec fn is_hit_at(line: Line, crossings: Seq<Coord>, hit: (Line, u64)) -> bool {
    &&& hit.0.start == line.start
    &&& exists|k: int| is_nearest(line.start, crossings, k) && hit.0.end == #[trigger] crossings[k]
    &&& is_floor_sqrt(dist2(hit.0.start, hit.0.end), hit.1 as int)
}

/// What a ray hits on one building: nothing where the building and the ray
/// do not meet or the ray crosses the outer ring nowhere, else the ray cut
/// off at the nearest crossing.
pub fn hit_on_building(meets: bool, full_line: Line, crossings: &Vec<Coord>) -> (hit: Option<
    (Line, u64),
>)
    requires
        full_line.start.in_range(),
        all_in_range(crossings@),
    ensures
        match hit {
            Some(found) => meets && crossings@.len() > 0 && is_hit_at(full_line, crossings@, found),
            None => !meets || crossings@.len() == 0,
        },
{
    if !meets {
        return None;
    }
    match split_line_by_polygon(full_line, crossings) {
        Some(shortened) => {
            let length: u64 = euclidean_length(&shortened);
            Some((shortened, length))
        },
        None => None,
    }
}

impl Ray {
    /// The ray has one list of crossings for each building, and it and its
    /// crossings lie within `geometry::COORD_LIMIT` of the origin.
    pub open spec fn fits(&self, buildings: Seq<Building>) -> bool {
        &&& self.crossings@.len() == buildings.len()
        &&& self.full_line.in_range()
        &&& forall|b: int|
            0 <= b < self.crossings@.len() ==> all_in_range((#[trigger] self.crossings@[b])@)
    }

    /// Tells whether the ray has one list of crossings for each of
    /// `buildings` and lies in range.
    pub fn is_fit(&self, buildings: &Vec<Building>) -> (ok: bool)
        ensures
            ok == self.fits(buildings@),
    {
        if self.crossings.len() != buildings.len() || !self.full_line.is_in_range() {
            return false;
        }
        let mut b: usize = 0;
        while b < self.crossings.len()
            invariant
                b <= self.crossings@.len(),
                forall|k: int| 0 <= k < b ==> all_in_range((#[trigger] self.crossings@[k])@),
            decreases self.crossings@.len() - b,
        {
            if !are_in_range(&self.crossings[b]) {
                return false;
            }
            b += 1;
        }
        true
    }

    /// The building `b` stops the ray: the two meet, and the ray crosses the
    /// building's outer ring.
    pub open spec fn strikes(&self, buildings: Seq<Building>, b: int) -> bool {
        ring_meets_line(buildings[b].polygon@, self.full_line) && self.crossings@[b]@.len() > 0
    }

    /// `test` is the outcome of casting the ray: it hits the first building
    /// in the order of the map that stops it, or nothing where none does.
    pub open spec fn casts_to(&self, buildings: Seq<Building>, test: TestLine) -> bool {
        &&& test.left == self.left
        &&& test.full_line == self.full_line
        &&& match test.hit {
            Some(hit) => exists|b: int|
                0 <= b < buildings.len() && #[trigger] self.strikes(buildings, b) && (forall|
                    c: int,
                |
                    0 <= c < b ==> !#[trigger] self.strikes(buildings, c)) && is_hit_at(
                    self.full_line,
                    self.crossings@[b]@,
                    hit,
                ),
            None => forall|b: int|
                0 <= b < buildings.len() ==> !#[trigger] self.strikes(buildings, b),
        }
    }
}

/// Casts one ray against the buildings in their order: the first building
/// that stops the ray decides the hit.
pub fn cast_ray(buildings: &Vec<Building>, ray: &Ray) -> (test: TestLine)
    requires
        ray.fits(buildings@),
        forall|k: int| 0 <= k < buildings@.len() ==> all_in_range((#[trigger] buildings@[k]).polygon@),
    ensures
        ray.casts_to(buildings@, test),
{
    let mut hit: Option<(Line, u64)> = None;
    let mut b: usize = 0;
    while b < buildings.len() && hit.is_none()
        invariant
            b <= buildings@.len(),
            ray.fits(buildings@),
            forall|k: int|
                0 <= k < buildings@.len() ==> all_in_range((#[trigger] buildings@[k]).polygon@),
            match hit {
                Some(found) => b > 0 && ray.strikes(buildings@, b - 1) && (forall|c: int|
                    0 <= c < b - 1 ==> !#[trigger] ray.strikes(buildings@, c)) && is_hit_at(
                    ray.full_line,
                    ray.crossings@[b - 1]@,
                    found,
                ),
                None => forall|c: int| 0 <= c < b ==> !#[trigger] ray.strikes(buildings@, c),
            },
        decreases buildings@.len() - b,
    {
        assert(all_in_range(ray.crossings@[b as int]@));
        let meets = polygon_intersects_line(&buildings[b].polygon, &ray.full_line);
        hit = hit_on_building(meets, ray.full_line, &ray.crossings[b]);
        b += 1;
    }
    TestLine { left: ray.left, full_line: ray.full_line, hit }
}

/// Casts every ray against the buildings of the map.
pub fn cast_rays(map: &MapModel, rays: &Vec<Ray>) -> (test_lines: Vec<TestLine>)
    requires
        map.wf(),
        forall|i: int| 0 <= i < rays@.len() ==> (#[trigger] rays@[i]).fits(map.buildings_view()),
    ensures
        test_lines@.len() == rays@.len(),
        forall|i: int|
            0 <= i < rays@.len() ==> rays@[i].casts_to(
                map.buildings_view(),
                #[trigger] test_lines@[i],
            ),
{
    let buildings = map.buildings();
    let mut test_lines: Vec<TestLine> = Vec::new();
    let mut i: usize = 0;
    while i < rays.len()
        invariant
            i <= rays@.len(),
            map.wf(),
            buildings@ == map.buildings_view(),
            forall|i: int| 0 <= i < rays@.len() ==> (#[trigger] rays@[i]).fits(map.buildings_view()),
            test_lines@.len() == i,
            forall|k: int|
                0 <= k < i ==> rays@[k].casts_to(map.buildings_view(), #[trigger] test_lines@[k]),
        decreases rays@.len() - i,
    {
        assert(rays@[i as int].fits(map.buildings_view()));
        let test = cast_ray(buildings, &rays[i]);
        test_lines.push(test);
        i += 1;
    }
    test_lines
}

/// The clearance on one side of a road: the least length of a hit on that
/// side, and `cap` where that is less or nothing was hit.
pub open spec fn clearance(tests: Seq<TestLine>, left: bool, cap: u64) -> u64
    decreases tests.len(),
{
    if tests.len() == 0 {
        cap
    } else {
        let rest = clearance(tests.drop_last(), left, cap);
        match tests.last().hit {
            Some(hit) => if tests.last().left == left && hit.1 < rest {
                hit.1
            } else {
                rest
            },
            None => rest,
        }
    }
}

/// The clearance is a minimum: it is at most `cap` and at most the length of
/// any hit on its side, and it is `cap` or the length of one such hit.
pub proof fn lemma_clearance_is_least(tests: Seq<TestLine>, left: bool, cap: u64)
    ensures
        clearance(tests, left, cap) <= cap,
        forall|i: int|
            0 <= i < tests.len() && (#[trigger] tests[i]).left == left && tests[i].hit.is_some()
                ==> clearance(tests, left, cap) <= tests[i].hit.unwrap().1,
        clearance(tests, left, cap) == cap || exists|i: int|
            0 <= i < tests.len() && (#[trigger] tests[i]).left == left && tests[i].hit.is_some()
                && clearance(tests, left, cap) == tests[i].hit.unwrap().1,
    decreases tests.len(),
{
    if tests.len() > 0 {
        let shorter = tests.drop_last();
        lemma_clearance_is_least(shorter, left, cap);
        let rest = clearance(shorter, left, cap);
        assert forall|i: int|
            0 <= i < tests.len() && (#[trigger] tests[i]).left == left
                && tests[i].hit.is_some() implies clearance(tests, left, cap)
            <= tests[i].hit.unwrap().1 by {
            if i < shorter.len() {
                assert(shorter[i] == tests[i]);
            }
        }
        if clearance(tests, left, cap) != cap {
            if clearance(tests, left, cap) == rest {
                let i = choose|i: int|
                    0 <= i < shorter.len() && (#[trigger] shorter[i]).left == left
                        && shorter[i].hit.is_some() && rest == shorter[i].hit.unwrap().1;
                assert(tests[i] == shorter[i]);
            } else {
                assert(tests[tests.len() - 1] == tests.last());
            }
        }
    }
}

/// Where no ray on a side hit anything, the clearance on that side is
/// exactly `cap`.
pub proof fn lemma_clearance_without_hits(tests: Seq<TestLine>, left: bool, cap: u64)
    requires
        forall|i: int|
            0 <= i < tests.len() && (#[trigger] tests[i]).left == left ==> tests[i].hit.is_none(),
    ensures
        clearance(tests, left, cap) == cap,
    decreases tests.len(),
{
    if tests.len() > 0 {
        let shorter = tests.drop_last();
        assert forall|i: int| 0 <= i < shorter.len() && (#[trigger] shorter[i]).left
            == left implies shorter[i].hit.is_none() by {
            assert(shorter[i] == tests[i]);
        }
        lemma_clearance_without_hits(shorter, left, cap);
        assert(tests[tests.len() - 1] == tests.last());
    }
}

/// The clearances to the left and to the right of a road, from the rays
/// cast across it.
pub fn max_widths(test_lines: &Vec<TestLine>) -> (widths: (u64, u64))
    ensures
        widths.0 == clearance(test_lines@, true, PROJECT_AWAY),
        widths.1 == clearance(test_lines@, false, PROJECT_AWAY),
{
    let mut max_right_width: u64 = PROJECT_AWAY;
    let mut max_left_width: u64 = PROJECT_AWAY;
    let mut i: usize = 0;
    while i < test_lines.len()
        invariant
            i <= test_lines@.len(),
            max_left_width == clearance(test_lines@.subrange(0, i as int), true, PROJECT_AWAY),
            max_right_width == clearance(test_lines@.subrange(0, i as int), false, PROJECT_AWAY),
        decreases test_lines@.len() - i,
    {
        proof {
            let longer = test_lines@.subrange(0, i + 1);
            assert(longer.drop_last() =~= test_lines@.subrange(0, i as int));
            assert(longer.last() == test_lines@[i as int]);
        }
        let test = &test_lines[i];
        match test.hit {
            Some(hit) => {
                if test.left {
                    if hit.1 < max_left_width {
                        max_left_width = hit.1;
                    }
                } else {
                    if hit.1 < max_right_width {
                        max_right_width = hit.1;
                    }
                }
            },
            None => {},
        }
        i += 1;
    }
    assert(test_lines@.subrange(0, test_lines@.len() as int) =~= test_lines@);
    (max_left_width, max_right_width)
}

/// The road `k` runs beside the road `subject`: it is another road, it
/// meets the corridor with the outer ring `ring`, and the mean headings of
/// the two differ by less than `PARALLEL_TOLERANCE`. A stub that joins the
/// corridor at a flat angle counts too.
pub open spec fn runs_beside(
    roads: Seq<Road>,
    ring: Seq<Coord>,
    subject: int,
    k: int,
    angles: Seq<Vec<i64>>,
) -> bool {
    &&& roads[k].id != roads[subject].id
    &&& ring_meets_path(ring, roads[k].linestring@)
    &&& are_nearly_parallel(angles[subject]@, angles[k]@, PARALLEL_TOLERANCE as int)
}

/// The places, in rising order, of those of the first `n` roads that run
/// beside the road `subject`.
pub open spec fn beside(
    roads: Seq<Road>,
    ring: Seq<Coord>,
    subject: int,
    angles: Seq<Vec<i64>>,
    n: int,
) -> Seq<int>
    decreases n,
{
    if n <= 0 {
        Seq::empty()
    } else {
        let rest = beside(roads, ring, subject, angles, n - 1);
        if runs_beside(roads, ring, subject, n - 1, angles) {
            rest.push(n - 1)
        } else {
            rest
        }
    }
}

/// `found` reports the roads at the places `places`, each with its
/// centerline, its mean heading and that of the road `subject`.
pub open spec fn reports(
    found: Seq<ParallelRoad>,
    roads: Seq<Road>,
    subject: int,
    angles: Seq<Vec<i64>>,
    places: Seq<int>,
) -> bool {
    &&& found.len() == places.len()
    &&& forall|i: int|
        0 <= i < found.len() ==> {
            &&& (#[trigger] found[i]).road == roads[places[i]].id
            &&& found[i].linestring@ == roads[places[i]].linestring@
            &&& Some(found[i].subject_angle) == mean_angle(angles[subject]@)
            &&& Some(found[i].angle) == mean_angle(angles[places[i]]@)
        }
}

/// The roads of the map that run beside `original_road`, whose corridor is
/// `within_polygon`. `segment_angles` gives, for each road of the map, the
/// headings of the segments of its centerline.
pub fn find_parallel_roads(
    map: &MapModel,
    within_polygon: &Polygon,
    original_road: RoadID,
    segment_angles: &Vec<Vec<i64>>,
) -> (parallel: Vec<ParallelRoad>)
    requires
        map.wf(),
        original_road.0 < map.roads_view().len(),
        segment_angles@.len() == map.roads_view().len(),
        all_in_range(within_polygon@),
    ensures
        reports(
            parallel@,
            map.roads_view(),
            original_road.0 as int,
            segment_angles@,
            beside(
                map.roads_view(),
                within_polygon@,
                original_road.0 as int,
                segment_angles@,
                map.roads_view().len() as int,
            ),
        ),
{
    let roads = map.roads();
    let subject: usize = original_road.0;
    let ghost ring = within_polygon@;
    let mut parallel: Vec<ParallelRoad> = Vec::new();
    let mut k: usize = 0;
    while k < roads.len()
        invariant
            k <= roads@.len(),
            map.wf(),
            roads@ == map.roads_view(),
            subject < roads@.len(),
            segment_angles@.len() == roads@.len(),
            ring == within_polygon@,
            all_in_range(ring),
            reports(
                parallel@,
                roads@,
                subject as int,
                segment_angles@,
                beside(roads@, ring, subject as int, segment_angles@, k as int),
            ),
        decreases roads@.len() - k,
    {
        let road = &roads[k];
        let ghost before = parallel@;
        let ghost places = beside(roads@, ring, subject as int, segment_angles@, k as int);
        let mut flagged = false;
        if road.id != roads[subject].id {
            assert(all_in_range(roads@[k as int].linestring@));
            if polygon_intersects_linestring(within_polygon, &road.linestring) {
                if nearly_parallel(
                    &segment_angles[subject],
                    &segment_angles[k],
                    PARALLEL_TOLERANCE,
                ) {
                    flagged = true;
                }
            }
        }
        assert(flagged == runs_beside(roads@, ring, subject as int, k as int, segment_angles@));
        if flagged {
            let subject_angle = average_angle(&segment_angles[subject]);
            let angle = average_angle(&segment_angles[k]);
            parallel.push(
                ParallelRoad {
                    road: road.id,
                    linestring: road.linestring.clone(),
                    subject_angle: subject_angle.unwrap(),
                    angle: angle.unwrap(),
                },
            );
            proof {
                let longer = places.push(k as int);
                assert forall|i: int| 0 <= i < parallel@.len() implies {
                    &&& (#[trigger] parallel@[i]).road == roads@[longer[i]].id
                    &&& parallel@[i].linestring@ == roads@[longer[i]].linestring@
                    &&& Some(parallel@[i].subject_angle) == mean_angle(segment_angles@[subject as int]@)
                    &&& Some(parallel@[i].angle) == mean_angle(segment_angles@[longer[i]]@)
                } by {
                    if i < before.len() {
                        assert(parallel@[i] == before[i]);
                    }
                }
            }
        }
        k += 1;
    }
    parallel
}

/// Where no ray hit anything, both clearances are exactly `PROJECT_AWAY`.
pub open spec fn nothing_hit(test_lines: Seq<TestLine>) -> bool {
    forall|i: int| 0 <= i < test_lines.len() ==> (#[trigger] test_lines[i]).hit.is_none()
}

/// Puts together what measuring the road `r` gives: the rays as they were
/// cast, the clearance on either side, the corridor glued from the two
/// offset curves of the centerline, and, where there is a corridor, the
/// roads that run beside `r`. The offset curves are those at the distances
/// that `max_widths` gives for the same rays; where either could not be
/// drawn there is no corridor and nothing is looked for beside the road.
pub fn find_road_width(
    map: &MapModel,
    r: RoadID,
    test_lines: Vec<TestLine>,
    left_curve: Option<Vec<Coord>>,
    right_curve: Option<Vec<Coord>>,
    segment_angles: &Vec<Vec<i64>>,
) -> (out: Output)
    requires
        map.wf(),
        r.0 < map.roads_view().len(),
        segment_angles@.len() == map.roads_view().len(),
        left_curve.is_some() && right_curve.is_some() ==> all_in_range(left_curve.unwrap()@)
            && all_in_range(right_curve.unwrap()@),
    ensures
        out.test_lines@ == test_lines@,
        out.max_left_width == clearance(test_lines@, true, PROJECT_AWAY),
        out.max_right_width == clearance(test_lines@, false, PROJECT_AWAY),
        nothing_hit(test_lines@) ==> out.max_left_width == PROJECT_AWAY && out.max_right_width
            == PROJECT_AWAY,
        match out.buffered_polygon {
            Some(polygon) => left_curve.is_some() && right_curve.is_some() && polygon@
                == corridor_ring(left_curve.unwrap()@, right_curve.unwrap()@) && reports(
                out.parallel_roads@,
                map.roads_view(),
                r.0 as int,
                segment_angles@,
                beside(
                    map.roads_view(),
                    polygon@,
                    r.0 as int,
                    segment_angles@,
                    map.roads_view().len() as int,
                ),
            ),
            None => (left_curve.is_none() || right_curve.is_none()) && out.parallel_roads@.len()
                == 0,
        },
{
    let widths = max_widths(&test_lines);
    proof {
        if nothing_hit(test_lines@) {
            lemma_clearance_without_hits(test_lines@, true, PROJECT_AWAY);
            lemma_clearance_without_hits(test_lines@, false, PROJECT_AWAY);
        }
    }
    let buffered_polygon = buffer_linestring(left_curve, right_curve);
    let parallel_roads = match &buffered_polygon {
        Some(polygon) => {
            proof {
                let left = left_curve.unwrap()@;
                let right = right_curve.unwrap()@;
                assert forall|i: int| 0 <= i < polygon@.len() implies (
                #[trigger] polygon@[i]).in_range() by {
                    if i < left.len() {
                        assert(polygon@[i] == left[left.len() - 1 - i]);
                    } else {
                        assert(polygon@[i] == right[i - left.len()]);
                    }
                }
            }
            find_parallel_roads(map, polygon, r, segment_angles)
        },
        None => Vec::new(),
    };
    Output {
        test_lines,
        max_left_width: widths.0,
        max_right_width: widths.1,
        buffered_polygon,
        parallel_roads,
    }
}

/// The record of `before` with what was measured written onto it.
pub open spec fn is_measured(before: Road, after: Road, out: Output) -> bool {
    &&& after.max_left_width == Some(out.max_left_width)
    &&& after.max_right_width == Some(out.max_right_width)
    &&& match (after.polygon, out.buffered_polygon) {
        (Some(a), Some(b)) => a@ == b@,
        (None, None) => true,
        _ => false,
    }
    &&& after == (Road {
        max_left_width: after.max_left_width,
        max_right_width: after.max_right_width,
        polygon: after.polygon,
        ..before
    })
}

/// Writes onto every road of the map what was measured for it: `results`
/// holds one outcome for each road, in the order of the map.
pub fn find_all(map: &mut MapModel, results: &Vec<Output>)
    requires
        old(map).wf(),
        results@.len() == old(map).roads_view().len(),
    ensures
        final(map).wf(),
        final(map).roads_view().len() == old(map).roads_view().len(),
        forall|k: int|
            0 <= k < results@.len() ==> is_measured(
                old(map).roads_view()[k],
                #[trigger] final(map).roads_view()[k],
                results@[k],
            ),
        final(map).intersections_view() == old(map).intersections_view(),
        final(map).buildings_view() == old(map).buildings_view(),
        final(map).graph_view() == old(map).graph_view(),
        final(map).undo_views() == old(map).undo_views(),
{
    let mut k: usize = 0;
    while k < results.len()
        invariant
            k <= results@.len(),
            map.wf(),
            results@.len() == old(map).roads_view().len(),
            map.roads_view().len() == old(map).roads_view().len(),
            forall|j: int|
                0 <= j < k ==> is_measured(
                    old(map).roads_view()[j],
                    #[trigger] map.roads_view()[j],
                    results@[j],
                ),
            forall|j: int|
                k <= j < results@.len() ==> #[trigger] map.roads_view()[j] == old(
                    map,
                ).roads_view()[j],
            map.intersections_view() == old(map).intersections_view(),
            map.buildings_view() == old(map).buildings_view(),
            map.graph_view() == old(map).graph_view(),
            map.undo_views() == old(map).undo_views(),
        decreases results@.len() - k,
    {
        let out = &results[k];
        let polygon = match &out.buffered_polygon {
            Some(p) => Some(p.clone()),
            None => None,
        };
        map.record_width(RoadID(k), out.max_left_width, out.max_right_width, polygon);
        k += 1;
    }
}

} // verus!
