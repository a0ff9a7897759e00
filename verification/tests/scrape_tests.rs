use backend::geometry::{Coord, COORD_LIMIT};
use backend::scrape::{has, scrape_osm, split_ways, Element, ScrapeError, Way};
use backend::{IntersectionID, RoadID};
use std::collections::HashMap;

fn tagged(pairs: &[(&str, &str)]) -> Vec<(String, String)> {
    pairs.iter().map(|(k, v)| (k.to_string(), v.to_string())).collect()
}

fn node(id: i64, x: i64, y: i64) -> Element {
    Element::Node { id, pt: Coord { x, y } }
}

fn highway(id: i64, node_ids: Vec<i64>) -> Element {
    Element::Way(Way { id, node_ids, tags: tagged(&[("highway", "residential")]) })
}

fn building(id: i64, node_ids: Vec<i64>) -> Element {
    Element::Way(Way { id, node_ids, tags: tagged(&[("building", "yes")]) })
}

fn xy(points: &Vec<Coord>) -> Vec<(i64, i64)> {
    points.iter().map(|c| (c.x, c.y)).collect()
}

#[test]
fn a_way_alone_is_one_road_between_its_ends() {
    let elements = vec![node(1, 0, 0), node(2, 1000, 0), node(3, 2000, 500), highway(7, vec![1, 2, 3])];
    let map = scrape_osm(&elements).unwrap();
    assert_eq!(map.roads().len(), 1);
    let r = &map.roads()[0];
    assert_eq!(r.id, RoadID(0));
    assert_eq!(r.way, 7);
    assert_eq!((r.node1, r.node2), (1, 3));
    assert_eq!((r.src_i, r.dst_i), (IntersectionID(0), IntersectionID(1)));
    assert_eq!(xy(&r.linestring), vec![(0, 0), (1000, 0), (2000, 500)]);
    assert_eq!(r.tags, tagged(&[("highway", "residential")]));
    assert_eq!(r.max_left_width, None);
    assert_eq!(r.max_right_width, None);
    assert!(r.polygon.is_none());
    assert_eq!(map.intersections().len(), 2);
    let i0 = &map.intersections()[0];
    assert_eq!((i0.id, i0.node, i0.point), (IntersectionID(0), 1, Coord { x: 0, y: 0 }));
    assert_eq!(i0.roads, vec![RoadID(0)]);
    let i1 = &map.intersections()[1];
    assert_eq!((i1.id, i1.node, i1.point), (IntersectionID(1), 3, Coord { x: 2000, y: 500 }));
    assert_eq!(i1.roads, vec![RoadID(0)]);
}

#[test]
fn a_way_is_cut_where_another_way_meets_it() {
    let elements = vec![
        node(1, 0, 0),
        node(2, 1000, 0),
        node(3, 2000, 0),
        node(4, 3000, 0),
        node(5, 1000, 1000),
        highway(7, vec![1, 2, 3, 4]),
        highway(8, vec![5, 2]),
    ];
    let map = scrape_osm(&elements).unwrap();
    let roads = map.roads();
    assert_eq!(roads.len(), 3);
    assert_eq!((roads[0].way, roads[0].node1, roads[0].node2), (7, 1, 2));
    assert_eq!(xy(&roads[0].linestring), vec![(0, 0), (1000, 0)]);
    assert_eq!((roads[1].way, roads[1].node1, roads[1].node2), (7, 2, 4));
    assert_eq!(xy(&roads[1].linestring), vec![(1000, 0), (2000, 0), (3000, 0)]);
    assert_eq!((roads[2].way, roads[2].node1, roads[2].node2), (8, 5, 2));
    assert_eq!(xy(&roads[2].linestring), vec![(1000, 1000), (1000, 0)]);
    for (k, r) in roads.iter().enumerate() {
        assert_eq!(r.id, RoadID(k));
    }
    // Intersections come in the order in which the roads bring them up.
    let nodes: Vec<i64> = map.intersections().iter().map(|i| i.node).collect();
    assert_eq!(nodes, vec![1, 2, 4, 5]);
    assert_eq!(map.intersections()[1].roads, vec![RoadID(0), RoadID(1), RoadID(2)]);
    assert_eq!((roads[0].src_i, roads[0].dst_i), (IntersectionID(0), IntersectionID(1)));
    assert_eq!((roads[1].src_i, roads[1].dst_i), (IntersectionID(1), IntersectionID(2)));
    assert_eq!((roads[2].src_i, roads[2].dst_i), (IntersectionID(3), IntersectionID(1)));
    for (k, i) in map.intersections().iter().enumerate() {
        assert_eq!(i.id, IntersectionID(k));
    }
}

#[test]
fn a_node_that_one_way_passes_twice_is_no_junction() {
    // The way comes back to node 2; no other way references it.
    let elements = vec![
        node(1, 0, 0),
        node(2, 1000, 0),
        node(3, 2000, 0),
        node(4, 2000, 1000),
        highway(7, vec![1, 2, 3, 4, 2]),
    ];
    let map = scrape_osm(&elements).unwrap();
    assert_eq!(map.roads().len(), 1);
    assert_eq!((map.roads()[0].node1, map.roads()[0].node2), (1, 2));
    assert_eq!(map.roads()[0].linestring.len(), 5);
}

#[test]
fn a_road_that_ends_where_it_starts_is_listed_twice() {
    let elements = vec![node(1, 0, 0), node(2, 1000, 0), node(3, 1000, 1000), highway(7, vec![1, 2, 3, 1])];
    let map = scrape_osm(&elements).unwrap();
    assert_eq!(map.roads().len(), 1);
    assert_eq!(map.intersections().len(), 1);
    assert_eq!(map.intersections()[0].roads, vec![RoadID(0), RoadID(0)]);
    assert_eq!(map.roads()[0].src_i, map.roads()[0].dst_i);
    // The graph lists the loop edge once.
    let out = map.render_graph();
    assert_eq!(out.nodes[0].edges.len(), 1);
    assert_eq!(out.edges[0].node1, out.edges[0].node2);
}

#[test]
fn a_way_of_one_node_or_none_gives_no_road() {
    let elements = vec![node(1, 0, 0), highway(7, vec![1]), highway(8, vec![])];
    let map = scrape_osm(&elements).unwrap();
    assert_eq!(map.roads().len(), 0);
    assert_eq!(map.intersections().len(), 0);
}

#[test]
fn tags_are_copied_onto_every_road_of_a_way() {
    let tags = tagged(&[("highway", "primary"), ("name", "High Street"), ("lanes", "2")]);
    let elements = vec![
        node(1, 0, 0),
        node(2, 1000, 0),
        node(3, 2000, 0),
        node(4, 1000, 1000),
        Element::Way(Way { id: 7, node_ids: vec![1, 2, 3], tags: tags.clone() }),
        highway(8, vec![4, 2]),
    ];
    let map = scrape_osm(&elements).unwrap();
    assert_eq!(map.roads().len(), 3);
    assert_eq!(map.roads()[0].tags, tags);
    assert_eq!(map.roads()[1].tags, tags);
    assert_eq!(map.roads()[2].tags, tagged(&[("highway", "residential")]));
}

#[test]
fn a_highway_with_a_node_without_position_fails() {
    let elements = vec![node(1, 0, 0), highway(7, vec![1, 2])];
    assert_eq!(scrape_osm(&elements).err(), Some(ScrapeError::MissingNode(2)));
}

#[test]
fn a_highway_may_come_before_its_nodes() {
    let elements = vec![highway(7, vec![1, 2]), node(1, 0, 0), node(2, 1000, 0)];
    let map = scrape_osm(&elements).unwrap();
    assert_eq!(map.roads().len(), 1);
}

#[test]
fn a_building_needs_its_nodes_before_it() {
    let elements = vec![node(1, 0, 0), node(2, 1000, 0), building(9, vec![1, 2, 3]), node(3, 0, 1000)];
    assert_eq!(scrape_osm(&elements).err(), Some(ScrapeError::MissingNode(3)));
}

#[test]
fn buildings_are_traced_from_their_nodes() {
    let elements = vec![
        node(1, 0, 0),
        node(2, 1000, 0),
        node(3, 1000, 1000),
        building(9, vec![1, 2, 3, 1]),
        Element::Other,
        Element::Way(Way { id: 10, node_ids: vec![1, 2], tags: tagged(&[("landuse", "grass")]) }),
    ];
    let map = scrape_osm(&elements).unwrap();
    assert_eq!(map.roads().len(), 0);
    assert_eq!(map.buildings().len(), 1);
    let b = &map.buildings()[0];
    assert_eq!(b.id, 9);
    assert_eq!(xy(&b.polygon.exterior), vec![(0, 0), (1000, 0), (1000, 1000), (0, 0)]);
    assert_eq!(b.tags, tagged(&[("building", "yes")]));
}

#[test]
fn a_way_with_both_keys_is_a_highway() {
    let elements = vec![
        node(1, 0, 0),
        node(2, 1000, 0),
        Element::Way(Way { id: 7, node_ids: vec![1, 2], tags: tagged(&[("building", "yes"), ("highway", "service")]) }),
    ];
    let map = scrape_osm(&elements).unwrap();
    assert_eq!(map.roads().len(), 1);
    assert_eq!(map.buildings().len(), 0);
}

#[test]
fn the_later_of_two_nodes_with_one_identifier_counts() {
    let elements = vec![node(1, 0, 0), node(2, 1000, 0), node(1, 500, 500), highway(7, vec![1, 2])];
    let map = scrape_osm(&elements).unwrap();
    assert_eq!(xy(&map.roads()[0].linestring), vec![(500, 500), (1000, 0)]);
}

#[test]
fn a_position_out_of_range_fails() {
    let elements = vec![node(1, 0, 0), node(2, COORD_LIMIT + 1, 0), highway(7, vec![1, 2])];
    assert_eq!(scrape_osm(&elements).err(), Some(ScrapeError::OutOfRange(7)));
    let elements = vec![node(1, 0, 0), node(2, 0, -COORD_LIMIT - 1), node(3, 5, 5), building(9, vec![1, 2, 3])];
    assert_eq!(scrape_osm(&elements).err(), Some(ScrapeError::OutOfRange(9)));
    let elements = vec![node(1, 0, 0), node(2, COORD_LIMIT, -COORD_LIMIT), highway(7, vec![1, 2])];
    assert!(scrape_osm(&elements).is_ok());
}

#[test]
fn a_missing_node_counts_before_a_position_out_of_range() {
    let elements = vec![node(1, 0, 0), node(2, COORD_LIMIT + 1, 0), highway(7, vec![1, 2]), highway(8, vec![1, 5])];
    assert_eq!(scrape_osm(&elements).err(), Some(ScrapeError::MissingNode(5)));
}

#[test]
fn a_node_out_of_range_that_no_way_uses_does_no_harm() {
    let elements = vec![node(1, 0, 0), node(2, 1000, 0), node(3, i64::MAX, i64::MIN), highway(7, vec![1, 2])];
    assert!(scrape_osm(&elements).is_ok());
}

#[test]
fn split_ways_on_a_crossing() {
    let ways = vec![
        Way { id: 1, node_ids: vec![10, 11, 12], tags: tagged(&[("highway", "a")]) },
        Way { id: 2, node_ids: vec![20, 11, 21], tags: tagged(&[("highway", "b")]) },
    ];
    let mut coords = HashMap::new();
    coords.insert(10, Coord { x: -1000, y: 0 });
    coords.insert(11, Coord { x: 0, y: 0 });
    coords.insert(12, Coord { x: 1000, y: 0 });
    coords.insert(20, Coord { x: 0, y: -1000 });
    coords.insert(21, Coord { x: 0, y: 1000 });
    let (roads, intersections) = split_ways(&ways, &coords).unwrap();
    let ends: Vec<(i64, i64, i64)> = roads.iter().map(|r| (r.way, r.node1, r.node2)).collect();
    assert_eq!(ends, vec![(1, 10, 11), (1, 11, 12), (2, 20, 11), (2, 11, 21)]);
    let nodes: Vec<i64> = intersections.iter().map(|i| i.node).collect();
    assert_eq!(nodes, vec![10, 11, 12, 20, 21]);
    assert_eq!(intersections[1].roads, vec![RoadID(0), RoadID(1), RoadID(2), RoadID(3)]);
    assert_eq!(intersections[1].point, Coord { x: 0, y: 0 });
    coords.remove(&21);
    assert_eq!(split_ways(&ways, &coords).err(), Some(ScrapeError::MissingNode(21)));
}

#[test]
fn has_finds_a_key_and_nothing_else() {
    let tags = tagged(&[("highway", "residential"), ("name", "building")]);
    assert!(has(&tags, "highway"));
    assert!(has(&tags, "name"));
    assert!(!has(&tags, "building"));
    assert!(!has(&tags, "high"));
    assert!(!has(&Vec::new(), "highway"));
}
