use backend::geometry::Coord;
use backend::graph::{EdgeID, Graph, NodeID};
use backend::math::{distance_saturating, linestring_length};
use backend::routing::{shortest_path, shortest_round_trip, shortest_walk};
use backend::scrape::{scrape_osm, Element, Way};

fn c(x: i64, y: i64) -> Coord {
    Coord { x, y }
}

fn node(id: i64, x: i64, y: i64) -> Element {
    Element::Node { id, pt: c(x, y) }
}

fn highway(id: i64, node_ids: Vec<i64>) -> Element {
    Element::Way(Way { id, node_ids, tags: vec![("highway".to_string(), "residential".to_string())] })
}

/// A triangle with sides of 3000, 4242 and 3000, a tail of 6000 at its
/// second corner, and a road far away.
fn triangle_with_tail() -> Graph {
    let elements = vec![
        node(1, 0, 0),
        node(2, 3000, 0),
        node(3, 0, 3000),
        node(4, 9000, 0),
        node(5, 50000, 50000),
        node(6, 60000, 50000),
        highway(10, vec![1, 2]),
        highway(11, vec![2, 3]),
        highway(12, vec![3, 1]),
        highway(13, vec![4, 2]),
        highway(14, vec![5, 6]),
    ];
    let map = scrape_osm(&elements).unwrap();
    Graph::new_from_map(map.roads(), map.intersections())
}

fn ids(nodes: &[NodeID]) -> Vec<usize> {
    nodes.iter().map(|n| n.0).collect()
}

fn edge_ids(edges: &[EdgeID]) -> Vec<usize> {
    edges.iter().map(|e| e.0).collect()
}

#[test]
fn distance_is_rounded_down() {
    assert_eq!(distance_saturating(c(0, 0), c(3, 4)), 5);
    assert_eq!(distance_saturating(c(3, 4), c(0, 0)), 5);
    assert_eq!(distance_saturating(c(0, 0), c(1000, 1000)), 1414);
    assert_eq!(distance_saturating(c(-7, 9), c(-7, 9)), 0);
}

#[test]
fn distance_takes_any_position() {
    assert_eq!(distance_saturating(c(i64::MIN, 0), c(i64::MAX, 0)), u64::MAX);
    assert_eq!(distance_saturating(c(i64::MIN, i64::MIN), c(i64::MAX, i64::MAX)), u64::MAX);
    assert_eq!(distance_saturating(c(i64::MIN, 0), c(0, 0)), 1 << 63);
    // Three and four times 2^60, hence five times 2^60.
    assert_eq!(distance_saturating(c(0, 0), c(3 << 60, 4 << 60)), 5 << 60);
}

#[test]
fn linestring_length_sums_the_segments() {
    assert_eq!(linestring_length(&vec![]), 0);
    assert_eq!(linestring_length(&vec![c(5, 5)]), 0);
    assert_eq!(linestring_length(&vec![c(0, 0), c(3, 4), c(3, 10)]), 11);
    assert_eq!(linestring_length(&vec![c(0, 0), c(1, 1), c(2, 2)]), 2);
    assert_eq!(linestring_length(&vec![c(i64::MIN, 0), c(i64::MAX, 0), c(0, 0)]), u64::MAX);
}

#[test]
fn the_direct_edge_is_the_shortest_path() {
    let g = triangle_with_tail();
    let route = shortest_path(&g, NodeID(0), NodeID(2)).unwrap();
    assert_eq!(ids(&route.nodes), vec![0, 2]);
    assert_eq!(edge_ids(&route.edges), vec![2]);
    assert_eq!(route.cost, 3000);
}

#[test]
fn the_shortest_path_goes_the_lighter_way_round() {
    let g = triangle_with_tail();
    let route = shortest_path(&g, NodeID(3), NodeID(2)).unwrap();
    assert_eq!(ids(&route.nodes), vec![3, 1, 2]);
    assert_eq!(edge_ids(&route.edges), vec![3, 1]);
    assert_eq!(route.cost, 6000 + 4242);
    let back = shortest_path(&g, NodeID(2), NodeID(3)).unwrap();
    assert_eq!(ids(&back.nodes), vec![2, 1, 3]);
    assert_eq!(back.cost, 6000 + 4242);
}

#[test]
fn there_is_no_path_to_a_node_out_of_reach() {
    let g = triangle_with_tail();
    assert!(shortest_path(&g, NodeID(0), NodeID(4)).is_none());
    assert!(shortest_path(&g, NodeID(5), NodeID(3)).is_none());
    let route = shortest_path(&g, NodeID(4), NodeID(5)).unwrap();
    assert_eq!(route.cost, 10000);
}

#[test]
fn a_banned_edge_is_not_used() {
    let g = triangle_with_tail();
    let route = shortest_walk(&g, NodeID(0), NodeID(2), Some(EdgeID(2))).unwrap();
    assert_eq!(ids(&route.nodes), vec![0, 1, 2]);
    assert_eq!(edge_ids(&route.edges), vec![0, 1]);
    assert_eq!(route.cost, 3000 + 4242);
    assert!(shortest_walk(&g, NodeID(3), NodeID(1), Some(EdgeID(3))).is_none());
}

#[test]
fn a_walk_from_a_node_to_itself_has_no_edge() {
    let g = triangle_with_tail();
    let route = shortest_walk(&g, NodeID(1), NodeID(1), None).unwrap();
    assert_eq!(ids(&route.nodes), vec![1]);
    assert_eq!(route.edges.len(), 0);
    assert_eq!(route.cost, 0);
}

#[test]
fn between_a_node_and_itself_a_round_trip_is_sought() {
    let g = triangle_with_tail();
    let trip = shortest_path(&g, NodeID(0), NodeID(0)).unwrap();
    assert_eq!(trip.cost, 3000 + 4242 + 3000);
    assert_eq!(trip.nodes.len(), 4);
    assert_eq!(trip.nodes[0], NodeID(0));
    assert_eq!(trip.nodes[3], NodeID(0));
    let mut used = edge_ids(&trip.edges);
    used.sort();
    assert_eq!(used, vec![0, 1, 2]);
    // From the corner with the tail the trip is the same round.
    let trip = shortest_round_trip(&g, NodeID(1)).unwrap();
    assert_eq!(trip.cost, 3000 + 4242 + 3000);
}

#[test]
fn there_is_no_round_trip_from_a_dead_end() {
    let g = triangle_with_tail();
    assert!(shortest_path(&g, NodeID(3), NodeID(3)).is_none());
    assert!(shortest_path(&g, NodeID(4), NodeID(4)).is_none());
}

#[test]
fn two_roads_between_two_nodes_make_a_round_trip() {
    let elements = vec![
        node(1, 0, 0),
        node(2, 1000, 0),
        node(3, 500, 500),
        highway(10, vec![1, 2]),
        highway(11, vec![1, 3, 2]),
    ];
    let map = scrape_osm(&elements).unwrap();
    let g = Graph::new_from_map(map.roads(), map.intersections());
    let there = shortest_path(&g, NodeID(0), NodeID(1)).unwrap();
    assert_eq!(edge_ids(&there.edges), vec![0]);
    assert_eq!(there.cost, 1000);
    let trip = shortest_path(&g, NodeID(0), NodeID(0)).unwrap();
    assert_eq!(ids(&trip.nodes), vec![0, 1, 0]);
    assert_eq!(trip.cost, 1000 + 707 + 707);
}

#[test]
fn a_walk_to_a_merged_node_counts_the_longer_centerline() {
    let elements = vec![
        node(1, 0, 0),
        node(2, 3000, 0),
        node(3, 0, 3000),
        node(4, 9000, 0),
        highway(10, vec![1, 2]),
        highway(11, vec![2, 3]),
        highway(12, vec![3, 1]),
        highway(13, vec![4, 2]),
    ];
    let map = scrape_osm(&elements).unwrap();
    let mut g = Graph::new_from_map(map.roads(), map.intersections());
    g.trace_graph_loop(0);
    // The tail now ends at the merged node, over (3000, 0) to (1000, 1000).
    let route = shortest_path(&g, NodeID(3), NodeID(4)).unwrap();
    assert_eq!(edge_ids(&route.edges), vec![3]);
    assert_eq!(route.cost, 6000 + 2236);
}

#[test]
fn node_and_edge_give_the_records() {
    let g = triangle_with_tail();
    let n = g.node(NodeID(1)).unwrap();
    assert_eq!(n.id, NodeID(1));
    assert_eq!(n.point, c(3000, 0));
    assert!(g.node(NodeID(6)).is_none());
    let e = g.edge(EdgeID(3)).unwrap();
    assert_eq!((e.node1, e.node2), (NodeID(3), NodeID(1)));
    assert!(g.edge(EdgeID(5)).is_none());
}
