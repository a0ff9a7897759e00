use backend::find_road_width::{
    average_angle, cast_ray, cast_rays, find_all, find_parallel_roads, find_road_width,
    hit_on_building, max_widths, nearly_parallel, shortest_rotation, Ray, TestLine, FULL_TURN,
    HALF_TURN, PARALLEL_TOLERANCE, PROJECT_AWAY, STEP_SIZE,
};
use backend::geometry::{Coord, Line, Polygon, COORD_LIMIT};
use backend::scrape::{scrape_osm, Element, Way};
use backend::{MapModel, RoadID};

const DEGREE: i64 = 1_000_000;

fn c(x: i64, y: i64) -> Coord {
    Coord { x, y }
}

fn node(id: i64, x: i64, y: i64) -> Element {
    Element::Node { id, pt: c(x, y) }
}

fn way(id: i64, key: &str, node_ids: Vec<i64>) -> Element {
    Element::Way(Way { id, node_ids, tags: vec![(key.to_string(), "yes".to_string())] })
}

/// A road of 100 m along the x axis, and a building of 20 m by 5 m whose
/// nearest wall runs 7 m beside the road, on the side of rising y.
fn road_with_building() -> MapModel {
    let elements = vec![
        node(1, 0, 0),
        node(2, 100_000, 0),
        node(11, 40_000, 7_000),
        node(12, 60_000, 7_000),
        node(13, 60_000, 12_000),
        node(14, 40_000, 12_000),
        way(100, "highway", vec![1, 2]),
        way(200, "building", vec![11, 12, 13, 14, 11]),
    ];
    scrape_osm(&elements).unwrap()
}

/// The rays across the road of `road_with_building`, one to either side of
/// each sample, with the places where each crosses the wall of the building.
fn rays_across() -> Vec<Ray> {
    let mut rays = Vec::new();
    let mut x = 0;
    while x < 100_000 {
        for (dy, left) in [(-(PROJECT_AWAY as i64), true), (PROJECT_AWAY as i64, false)] {
            let crossings = if !left && (40_000..=60_000).contains(&x) {
                vec![c(x, 7_000), c(x, 12_000)]
            } else {
                vec![]
            };
            rays.push(Ray { left, full_line: Line { start: c(x, 0), end: c(x, dy) }, crossings: vec![crossings] });
        }
        x += STEP_SIZE as i64;
    }
    rays
}

/// Three roads: two along the x axis, 3 m apart, and one that crosses both
/// at a right angle.
fn three_roads() -> MapModel {
    let elements = vec![
        node(1, 0, 0),
        node(2, 100_000, 0),
        node(3, 0, 3_000),
        node(4, 100_000, 3_000),
        node(5, 50_000, -10_000),
        node(6, 50_000, 10_000),
        way(100, "highway", vec![1, 2]),
        way(101, "highway", vec![3, 4]),
        way(102, "highway", vec![5, 6]),
    ];
    scrape_osm(&elements).unwrap()
}

fn no_hit(left: bool) -> TestLine {
    TestLine { left, full_line: Line { start: c(0, 0), end: c(0, 25_000) }, hit: None }
}

fn hit(left: bool, length: u64) -> TestLine {
    let part = Line { start: c(0, 0), end: c(0, length as i64) };
    TestLine { left, full_line: Line { start: c(0, 0), end: c(0, 25_000) }, hit: Some((part, length)) }
}

#[test]
fn step_cap_and_tolerance_have_their_values() {
    assert_eq!(STEP_SIZE, 1_000);
    assert_eq!(PROJECT_AWAY, 25_000);
    assert_eq!(PARALLEL_TOLERANCE, 10 * DEGREE);
    assert_eq!(HALF_TURN, 180 * DEGREE);
    assert_eq!(FULL_TURN, 360 * DEGREE);
}

#[test]
fn without_buildings_both_widths_are_the_cap() {
    let elements = vec![node(1, 0, 0), node(2, 100_000, 0), way(100, "highway", vec![1, 2])];
    let map = scrape_osm(&elements).unwrap();
    let mut rays = Vec::new();
    for x in 0..100 {
        rays.push(Ray { left: true, full_line: Line { start: c(x * 1000, 0), end: c(x * 1000, -25_000) }, crossings: vec![] });
        rays.push(Ray { left: false, full_line: Line { start: c(x * 1000, 0), end: c(x * 1000, 25_000) }, crossings: vec![] });
    }
    let tests = cast_rays(&map, &rays);
    assert_eq!(tests.len(), 200);
    assert!(tests.iter().all(|t| t.hit.is_none()));
    assert_eq!(max_widths(&tests), (25_000, 25_000));
    let out = find_road_width(&map, RoadID(0), tests, None, None, &vec![vec![0]]);
    assert_eq!(out.max_left_width, PROJECT_AWAY);
    assert_eq!(out.max_right_width, PROJECT_AWAY);
    assert!(out.buffered_polygon.is_none());
    assert_eq!(out.parallel_roads.len(), 0);
}

#[test]
fn without_rays_both_widths_are_the_cap() {
    assert_eq!(max_widths(&vec![]), (25_000, 25_000));
}

#[test]
fn a_wall_seven_metres_away_gives_a_width_of_seven_metres() {
    let map = road_with_building();
    let rays = rays_across();
    for ray in &rays {
        assert!(ray.is_fit(map.buildings()));
    }
    let tests = cast_rays(&map, &rays);
    assert_eq!(tests.len(), rays.len());
    for (t, r) in tests.iter().zip(rays.iter()) {
        assert_eq!(t.left, r.left);
        assert_eq!(t.full_line, r.full_line);
        let x = r.full_line.start.x;
        if !r.left && (40_000..=60_000).contains(&x) {
            assert_eq!(t.hit, Some((Line { start: c(x, 0), end: c(x, 7_000) }, 7_000)));
        } else {
            assert_eq!(t.hit, None);
        }
    }
    assert_eq!(max_widths(&tests), (25_000, 7_000));
}

#[test]
fn a_ray_that_does_not_meet_the_building_hits_nothing() {
    let map = road_with_building();
    // The ray runs beside the building; the crossings handed in are not
    // believed where the ray and the building do not meet.
    let ray = Ray {
        left: false,
        full_line: Line { start: c(10_000, 0), end: c(10_000, 25_000) },
        crossings: vec![vec![c(10_000, 7_000)]],
    };
    let test = cast_ray(map.buildings(), &ray);
    assert_eq!(test.hit, None);
    // A ray that stops short of the wall does not meet it either.
    let short = Ray {
        left: false,
        full_line: Line { start: c(50_000, 0), end: c(50_000, 6_999) },
        crossings: vec![vec![c(50_000, 7_000)]],
    };
    assert_eq!(cast_ray(map.buildings(), &short).hit, None);
    // One that reaches the wall does.
    let reaching = Ray {
        left: false,
        full_line: Line { start: c(50_000, 0), end: c(50_000, 7_000) },
        crossings: vec![vec![c(50_000, 7_000)]],
    };
    assert_eq!(
        cast_ray(map.buildings(), &reaching).hit,
        Some((Line { start: c(50_000, 0), end: c(50_000, 7_000) }, 7_000))
    );
}

#[test]
fn a_ray_inside_a_building_that_crosses_no_wall_hits_nothing() {
    let map = road_with_building();
    let ray = Ray {
        left: true,
        full_line: Line { start: c(45_000, 8_000), end: c(55_000, 11_000) },
        crossings: vec![vec![]],
    };
    assert_eq!(cast_ray(map.buildings(), &ray).hit, None);
}

#[test]
fn the_first_building_that_stops_the_ray_counts() {
    let elements = vec![
        node(11, 0, 10_000),
        node(12, 5_000, 10_000),
        node(13, 5_000, 12_000),
        node(14, 0, 12_000),
        node(21, 0, 4_000),
        node(22, 5_000, 4_000),
        node(23, 5_000, 6_000),
        node(24, 0, 6_000),
        way(200, "building", vec![11, 12, 13, 14, 11]),
        way(201, "building", vec![21, 22, 23, 24, 21]),
    ];
    let map = scrape_osm(&elements).unwrap();
    let ray = Ray {
        left: false,
        full_line: Line { start: c(2_000, 0), end: c(2_000, 25_000) },
        crossings: vec![vec![c(2_000, 12_000), c(2_000, 10_000)], vec![c(2_000, 4_000), c(2_000, 6_000)]],
    };
    // The farther building comes first in the map, and it decides.
    let test = cast_ray(map.buildings(), &ray);
    assert_eq!(test.hit, Some((Line { start: c(2_000, 0), end: c(2_000, 10_000) }, 10_000)));
}

#[test]
fn hit_on_building_needs_a_meeting_and_a_crossing() {
    let line = Line { start: c(0, 0), end: c(3_000, 4_000) };
    assert_eq!(hit_on_building(false, line, &vec![c(3, 4)]), None);
    assert_eq!(hit_on_building(true, line, &vec![]), None);
    assert_eq!(
        hit_on_building(true, line, &vec![c(3_000, 4_000), c(300, 400)]),
        Some((Line { start: c(0, 0), end: c(300, 400) }, 500))
    );
}

#[test]
fn a_ray_fits_with_one_list_for_each_building_and_in_range() {
    let map = road_with_building();
    let line = Line { start: c(0, 0), end: c(0, 25_000) };
    assert!(Ray { left: true, full_line: line, crossings: vec![vec![]] }.is_fit(map.buildings()));
    assert!(!Ray { left: true, full_line: line, crossings: vec![] }.is_fit(map.buildings()));
    assert!(!Ray { left: true, full_line: line, crossings: vec![vec![], vec![]] }.is_fit(map.buildings()));
    let far = Line { start: c(0, 0), end: c(0, COORD_LIMIT + 1) };
    assert!(!Ray { left: true, full_line: far, crossings: vec![vec![]] }.is_fit(map.buildings()));
    assert!(!Ray { left: true, full_line: line, crossings: vec![vec![c(COORD_LIMIT + 1, 0)]] }.is_fit(map.buildings()));
}

#[test]
fn the_width_is_the_least_hit_on_its_side() {
    let tests = vec![hit(true, 9_000), no_hit(true), hit(false, 12_000), hit(true, 4_500), hit(false, 20_000), hit(true, 4_500), hit(true, 8_000)];
    assert_eq!(max_widths(&tests), (4_500, 12_000));
}

#[test]
fn the_width_is_never_more_than_the_cap() {
    let tests = vec![hit(true, 30_000), hit(false, 25_000), hit(false, 25_001)];
    assert_eq!(max_widths(&tests), (25_000, 25_000));
    assert_eq!(max_widths(&vec![hit(true, 0)]), (0, 25_000));
}

#[test]
fn shortest_rotation_turns_the_shorter_way() {
    assert_eq!(shortest_rotation(90 * DEGREE, 90 * DEGREE), 0);
    assert_eq!(shortest_rotation(30 * DEGREE, 10 * DEGREE), 20 * DEGREE);
    assert_eq!(shortest_rotation(10 * DEGREE, 30 * DEGREE), -20 * DEGREE);
    assert_eq!(shortest_rotation(170 * DEGREE, -170 * DEGREE), -20 * DEGREE);
    assert_eq!(shortest_rotation(-170 * DEGREE, 170 * DEGREE), 20 * DEGREE);
    assert_eq!(shortest_rotation(180 * DEGREE, 0), 180 * DEGREE);
    assert_eq!(shortest_rotation(0, 180 * DEGREE), 180 * DEGREE);
    assert_eq!(shortest_rotation(-180 * DEGREE, 180 * DEGREE), 0);
    assert_eq!(shortest_rotation(720 * DEGREE + 5, 0), 5);
    assert_eq!(shortest_rotation(0, 720 * DEGREE + 5), -5);
    assert_eq!(shortest_rotation(180 * DEGREE + 1, 0), -180 * DEGREE + 1);
}

#[test]
fn shortest_rotation_stands_the_largest_angles() {
    let turn = shortest_rotation(i64::MAX, i64::MIN);
    assert!(-HALF_TURN < turn && turn <= HALF_TURN);
    let d = i64::MAX as i128 - i64::MIN as i128;
    assert_eq!((d - turn as i128).rem_euclid(FULL_TURN as i128), 0);
}

#[test]
fn average_angle_is_the_mean_rounded_down() {
    assert_eq!(average_angle(&vec![]), None);
    assert_eq!(average_angle(&vec![42]), Some(42));
    assert_eq!(average_angle(&vec![10, 20, 31]), Some(20));
    assert_eq!(average_angle(&vec![-1, 0]), Some(-1));
    assert_eq!(average_angle(&vec![90 * DEGREE, 0, -90 * DEGREE]), Some(0));
    assert_eq!(average_angle(&vec![i64::MAX, i64::MAX]), Some(i64::MAX));
}

#[test]
fn nearly_parallel_is_strict_at_the_tolerance() {
    let eps = PARALLEL_TOLERANCE;
    assert!(nearly_parallel(&vec![0], &vec![0], eps));
    assert!(nearly_parallel(&vec![0], &vec![10 * DEGREE - 1], eps));
    assert!(!nearly_parallel(&vec![0], &vec![10 * DEGREE], eps));
    assert!(nearly_parallel(&vec![10 * DEGREE - 1], &vec![0], eps));
    assert!(!nearly_parallel(&vec![-10 * DEGREE], &vec![0], eps));
    assert!(nearly_parallel(&vec![179 * DEGREE], &vec![-179 * DEGREE], eps));
    assert!(!nearly_parallel(&vec![0], &vec![90 * DEGREE], eps));
    // Roads in opposite directions are not parallel by this rule.
    assert!(!nearly_parallel(&vec![0], &vec![180 * DEGREE], eps));
    // The mean of the headings counts, not each heading.
    assert!(nearly_parallel(&vec![-40 * DEGREE, 40 * DEGREE], &vec![0], eps));
}

#[test]
fn a_line_without_segments_is_parallel_to_nothing() {
    assert!(!nearly_parallel(&vec![], &vec![0], PARALLEL_TOLERANCE));
    assert!(!nearly_parallel(&vec![0], &vec![], PARALLEL_TOLERANCE));
    assert!(!nearly_parallel(&vec![], &vec![], PARALLEL_TOLERANCE));
}

#[test]
fn nothing_is_nearly_parallel_within_no_tolerance() {
    assert!(!nearly_parallel(&vec![0], &vec![0], 0));
    assert!(!nearly_parallel(&vec![0], &vec![0], -5));
    assert!(!nearly_parallel(&vec![0], &vec![0], i64::MIN));
    assert!(nearly_parallel(&vec![0], &vec![0], 1));
}

#[test]
fn parallel_roads_see_each_other_and_not_the_crossing_road() {
    let map = three_roads();
    let angles = vec![vec![0], vec![0], vec![90 * DEGREE]];
    // The corridor of the first road, 5 m to either side.
    let around_first = Polygon { exterior: vec![c(100_000, -5_000), c(0, -5_000), c(0, 5_000), c(100_000, 5_000)] };
    let seen = find_parallel_roads(&map, &around_first, RoadID(0), &angles);
    assert_eq!(seen.len(), 1);
    assert_eq!(seen[0].road, RoadID(1));
    assert_eq!(seen[0].linestring, vec![c(0, 3_000), c(100_000, 3_000)]);
    assert_eq!((seen[0].subject_angle, seen[0].angle), (0, 0));
    // The corridor of the second road, 5 m to either side.
    let around_second = Polygon { exterior: vec![c(100_000, -2_000), c(0, -2_000), c(0, 8_000), c(100_000, 8_000)] };
    let seen = find_parallel_roads(&map, &around_second, RoadID(1), &angles);
    assert_eq!(seen.len(), 1);
    assert_eq!(seen[0].road, RoadID(0));
}

#[test]
fn a_road_outside_the_corridor_is_not_parallel() {
    let map = three_roads();
    let angles = vec![vec![0], vec![0], vec![90 * DEGREE]];
    // A corridor of 2 m to either side does not reach the second road.
    let narrow = Polygon { exterior: vec![c(100_000, -2_000), c(0, -2_000), c(0, 2_000), c(100_000, 2_000)] };
    assert_eq!(find_parallel_roads(&map, &narrow, RoadID(0), &angles).len(), 0);
}

#[test]
fn a_stub_at_a_flat_angle_counts_as_parallel() {
    let map = three_roads();
    // Were the crossing road at 5 degrees, it would be flagged: the rule
    // looks at the headings only.
    let angles = vec![vec![0], vec![0], vec![5 * DEGREE]];
    let around_first = Polygon { exterior: vec![c(100_000, -5_000), c(0, -5_000), c(0, 5_000), c(100_000, 5_000)] };
    let seen = find_parallel_roads(&map, &around_first, RoadID(0), &angles);
    let roads: Vec<RoadID> = seen.iter().map(|p| p.road).collect();
    assert_eq!(roads, vec![RoadID(1), RoadID(2)]);
    assert_eq!(seen[1].angle, 5 * DEGREE);
}

#[test]
fn find_road_width_puts_the_outcome_together() {
    let map = three_roads();
    let angles = vec![vec![0], vec![0], vec![90 * DEGREE]];
    let tests = vec![hit(true, 5_000), hit(false, 6_000), no_hit(true)];
    let left = vec![c(0, -5_000), c(100_000, -5_000)];
    let right = vec![c(0, 6_000), c(100_000, 6_000)];
    let out = find_road_width(&map, RoadID(0), tests, Some(left), Some(right), &angles);
    assert_eq!(out.test_lines.len(), 3);
    assert_eq!(out.max_left_width, 5_000);
    assert_eq!(out.max_right_width, 6_000);
    let corridor = out.buffered_polygon.unwrap();
    assert_eq!(corridor.exterior, vec![c(100_000, -5_000), c(0, -5_000), c(0, 6_000), c(100_000, 6_000)]);
    assert_eq!(out.parallel_roads.len(), 1);
    assert_eq!(out.parallel_roads[0].road, RoadID(1));
}

#[test]
fn without_a_corridor_no_road_is_looked_for() {
    let map = three_roads();
    let angles = vec![vec![0], vec![0], vec![0]];
    let out = find_road_width(&map, RoadID(0), vec![], None, Some(vec![c(0, 0), c(100_000, 9_000)]), &angles);
    assert!(out.buffered_polygon.is_none());
    assert_eq!(out.parallel_roads.len(), 0);
    assert_eq!((out.max_left_width, out.max_right_width), (25_000, 25_000));
}

#[test]
fn find_all_writes_the_widths_onto_the_roads() {
    let mut map = three_roads();
    let angles = vec![vec![0], vec![0], vec![90 * DEGREE]];
    let mut results = Vec::new();
    for r in 0..3 {
        let tests = vec![hit(true, 1_000 * (r as u64 + 1)), hit(false, 2_000 * (r as u64 + 1))];
        let curves = if r == 2 {
            (None, None)
        } else {
            (Some(vec![c(0, -1_000), c(10, -1_000)]), Some(vec![c(0, 2_000), c(10, 2_000)]))
        };
        results.push(find_road_width(&map, RoadID(r), tests, curves.0, curves.1, &angles));
    }
    let before = map.render_graph();
    find_all(&mut map, &results);
    let roads = map.roads();
    assert_eq!((roads[0].max_left_width, roads[0].max_right_width), (Some(1_000), Some(2_000)));
    assert_eq!((roads[1].max_left_width, roads[1].max_right_width), (Some(2_000), Some(4_000)));
    assert_eq!((roads[2].max_left_width, roads[2].max_right_width), (Some(3_000), Some(6_000)));
    assert_eq!(
        roads[0].polygon.as_ref().unwrap().exterior,
        vec![c(10, -1_000), c(0, -1_000), c(0, 2_000), c(10, 2_000)]
    );
    assert!(roads[2].polygon.is_none());
    assert_eq!(roads[1].way, 101);
    assert_eq!(roads[1].linestring, vec![c(0, 3_000), c(100_000, 3_000)]);
    assert_eq!(map.render_graph().nodes.len(), before.nodes.len());
    assert_eq!(map.undo_depth(), 0);
}
