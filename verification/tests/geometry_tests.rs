use backend::geometry::{are_in_range, average, div_floor, Coord, Line, Polygon, COORD_LIMIT};
use backend::intersection_geometry::{find_intersection_geometry, overlap_pairs, roads_to_thicken, BUFFER};
use backend::math::{buffer_linestring, euclidean_length, floor_sqrt, split_line_by_polygon, squared_distance};
use backend::scrape::{scrape_osm, Element, Way};
use backend::{copy_tags, IntersectionID, RoadID};

fn c(x: i64, y: i64) -> Coord {
    Coord { x, y }
}

#[test]
fn average_is_the_mean_of_the_points() {
    assert_eq!(average(&vec![c(0, 0), c(3000, 0), c(0, 3000)]), c(1000, 1000));
    assert_eq!(average(&vec![c(7, -9)]), c(7, -9));
    assert_eq!(average(&vec![c(1, 1), c(2, 2)]), c(1, 1));
}

#[test]
fn average_rounds_down() {
    assert_eq!(average(&vec![c(-1, 0), c(0, -3)]), c(-1, -2));
    assert_eq!(average(&vec![c(i64::MAX, i64::MIN), c(i64::MAX, i64::MIN)]), c(i64::MAX, i64::MIN));
    assert_eq!(average(&vec![c(i64::MAX, i64::MIN), c(i64::MIN, i64::MAX)]), c(-1, -1));
}

#[test]
fn div_floor_rounds_towards_minus_infinity() {
    assert_eq!(div_floor(7, 2), 3);
    assert_eq!(div_floor(-7, 2), -4);
    assert_eq!(div_floor(-8, 2), -4);
    assert_eq!(div_floor(0, 5), 0);
    assert_eq!(div_floor(-1, 5), -1);
}

#[test]
fn range_is_closed_at_the_limit() {
    assert!(c(COORD_LIMIT, -COORD_LIMIT).is_in_range());
    assert!(!c(COORD_LIMIT + 1, 0).is_in_range());
    assert!(!c(0, -COORD_LIMIT - 1).is_in_range());
    assert!(Line { start: c(0, 0), end: c(1, 1) }.is_in_range());
    assert!(!Line { start: c(0, 0), end: c(COORD_LIMIT + 1, 1) }.is_in_range());
    assert!(are_in_range(&vec![]));
    assert!(!are_in_range(&vec![c(0, 0), c(0, COORD_LIMIT + 1)]));
}

#[test]
fn squared_distance_and_length() {
    assert_eq!(squared_distance(c(0, 0), c(3, 4)), 25);
    assert_eq!(squared_distance(c(-3, 4), c(0, 0)), 25);
    assert_eq!(euclidean_length(&Line { start: c(0, 0), end: c(3000, 4000) }), 5000);
    assert_eq!(euclidean_length(&Line { start: c(10, 10), end: c(10, 10) }), 0);
    // The square root of two million, rounded down.
    assert_eq!(euclidean_length(&Line { start: c(0, 0), end: c(1000, 1000) }), 1414);
    let far = euclidean_length(&Line { start: c(-COORD_LIMIT, -COORD_LIMIT), end: c(COORD_LIMIT, COORD_LIMIT) });
    assert_eq!(far, 1518500249);
}

#[test]
fn floor_sqrt_rounds_down() {
    assert_eq!(floor_sqrt(0), 0);
    assert_eq!(floor_sqrt(1), 1);
    assert_eq!(floor_sqrt(15), 3);
    assert_eq!(floor_sqrt(16), 4);
    assert_eq!(floor_sqrt(17), 4);
    assert_eq!(floor_sqrt(0x2000_0000_0000_0000), 1518500249);
}

#[test]
fn split_line_takes_the_nearest_crossing() {
    let line = Line { start: c(0, 0), end: c(0, 25000) };
    assert_eq!(split_line_by_polygon(line, &vec![]), None);
    let far_first = vec![c(0, 9000), c(0, 4000), c(0, 7000)];
    assert_eq!(split_line_by_polygon(line, &far_first), Some(Line { start: c(0, 0), end: c(0, 4000) }));
}

#[test]
fn split_line_takes_the_first_of_two_nearest_crossings() {
    let line = Line { start: c(0, 0), end: c(25000, 0) };
    let crossings = vec![c(5, 0), c(3, 4), c(4, 3), c(0, 5)];
    assert_eq!(split_line_by_polygon(line, &crossings), Some(Line { start: c(0, 0), end: c(5, 0) }));
}

#[test]
fn buffer_glues_the_left_curve_backwards_to_the_right_curve() {
    let left = vec![c(0, -5), c(10, -5), c(20, -5)];
    let right = vec![c(0, 5), c(20, 5)];
    let corridor = buffer_linestring(Some(left), Some(right)).unwrap();
    assert_eq!(corridor.exterior, vec![c(20, -5), c(10, -5), c(0, -5), c(0, 5), c(20, 5)]);
}

#[test]
fn buffer_fails_where_a_curve_is_missing() {
    assert!(buffer_linestring(None, Some(vec![c(0, 0)])).is_none());
    assert!(buffer_linestring(Some(vec![c(0, 0)]), None).is_none());
    assert!(buffer_linestring(None, None).is_none());
}

#[test]
fn overlap_pairs_lists_every_ordered_pair() {
    assert_eq!(overlap_pairs(0), vec![]);
    assert_eq!(overlap_pairs(1), vec![]);
    assert_eq!(overlap_pairs(2), vec![(0, 1), (1, 0)]);
    assert_eq!(overlap_pairs(3), vec![(0, 1), (0, 2), (1, 0), (1, 2), (2, 0), (2, 1)]);
    let four = overlap_pairs(4);
    assert_eq!(four.len(), 12);
    assert_eq!(four[5], (1, 3));
    assert_eq!(four[9], (3, 0));
}

#[test]
fn footprint_keeps_the_roads_that_could_be_thickened() {
    let a = Polygon { exterior: vec![c(0, 0), c(1, 0), c(1, 1)] };
    let b = Polygon { exterior: vec![c(5, 5), c(6, 5), c(6, 6)] };
    let out = find_intersection_geometry(vec![Some(a.clone()), None, Some(b.clone()), None]);
    assert_eq!(out.thick_roads.len(), 2);
    assert_eq!(out.thick_roads[0].exterior, a.exterior);
    assert_eq!(out.thick_roads[1].exterior, b.exterior);
    assert_eq!(out.overlaps, vec![(0, 1), (1, 0)]);
    let none = find_intersection_geometry(vec![None]);
    assert_eq!(none.thick_roads.len(), 0);
    assert_eq!(none.overlaps, vec![]);
    assert_eq!(BUFFER, 1000);
}

#[test]
fn roads_to_thicken_are_those_of_the_intersection() {
    let tags = vec![("highway".to_string(), "x".to_string())];
    let elements = vec![
        Element::Node { id: 1, pt: c(0, 0) },
        Element::Node { id: 2, pt: c(1000, 0) },
        Element::Node { id: 3, pt: c(2000, 0) },
        Element::Node { id: 4, pt: c(1000, 1000) },
        Element::Way(Way { id: 7, node_ids: vec![1, 2, 3], tags: copy_tags(&tags) }),
        Element::Way(Way { id: 8, node_ids: vec![4, 2], tags: copy_tags(&tags) }),
    ];
    let map = scrape_osm(&elements).unwrap();
    assert_eq!(roads_to_thicken(&map, IntersectionID(1)), &vec![RoadID(0), RoadID(1), RoadID(2)]);
    assert_eq!(roads_to_thicken(&map, IntersectionID(0)), &vec![RoadID(0)]);
}
