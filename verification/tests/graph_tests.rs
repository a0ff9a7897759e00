use backend::geometry::Coord;
use backend::graph::{EdgeID, Graph, NodeID, Rendering};
use backend::scrape::{scrape_osm, Element, Way};
use backend::MapModel;

fn node(id: i64, x: i64, y: i64) -> Element {
    Element::Node { id, pt: Coord { x, y } }
}

fn highway(id: i64, node_ids: Vec<i64>) -> Element {
    Element::Way(Way { id, node_ids, tags: vec![("highway".to_string(), "residential".to_string())] })
}

/// Three nodes joined in a triangle by three ways.
fn triangle() -> MapModel {
    let elements = vec![
        node(1, 0, 0),
        node(2, 3000, 0),
        node(3, 0, 3000),
        highway(10, vec![1, 2]),
        highway(11, vec![2, 3]),
        highway(12, vec![3, 1]),
    ];
    scrape_osm(&elements).unwrap()
}

/// The triangle with a tail from node 2 to a fourth node, and a road between
/// two nodes far away.
fn triangle_with_tail() -> MapModel {
    let elements = vec![
        node(1, 0, 0),
        node(2, 3000, 0),
        node(3, 0, 3000),
        node(4, 9000, 0),
        node(5, 50000, 50000),
        node(6, 60000, 50000),
        highway(10, vec![1, 2]),
        highway(11, vec![2, 3]),
        highway(12, vec![3, 1]),
        highway(13, vec![4, 2]),
        highway(14, vec![5, 6]),
    ];
    scrape_osm(&elements).unwrap()
}

/// A path of `n` nodes closed into a ring, one way for each side.
fn ring(n: i64) -> MapModel {
    let mut elements = Vec::new();
    for i in 0..n {
        elements.push(node(i + 1, i * 1000, (i % 2) * 1000));
    }
    for i in 0..n {
        elements.push(highway(100 + i, vec![i + 1, (i + 1) % n + 1]));
    }
    scrape_osm(&elements).unwrap()
}

fn graph_of(map: &MapModel) -> Graph {
    Graph::new_from_map(map.roads(), map.intersections())
}

fn sorted<T: Ord + Copy>(v: &Vec<T>) -> Vec<T> {
    let mut w = v.clone();
    w.sort();
    w
}

/// The dump as plain values, with every set in rising order.
fn plain(out: &Rendering) -> (Vec<(usize, (i64, i64), Vec<usize>, Vec<usize>)>, Vec<(usize, usize, usize, Vec<(i64, i64)>, Vec<usize>)>, usize, usize) {
    let nodes = out
        .nodes
        .iter()
        .map(|n| {
            (
                n.id.0,
                (n.point.x, n.point.y),
                sorted(&n.edges.iter().map(|e| e.0).collect()),
                sorted(&n.intersections.iter().map(|i| i.0).collect()),
            )
        })
        .collect();
    let edges = out
        .edges
        .iter()
        .map(|e| {
            (
                e.id.0,
                e.node1.0,
                e.node2.0,
                e.linestring.iter().map(|c| (c.x, c.y)).collect(),
                sorted(&e.roads.iter().map(|r| r.0).collect()),
            )
        })
        .collect();
    (nodes, edges, out.next_node_id, out.next_edge_id)
}

/// Every edge ends at nodes of the dump, and every node lists exactly the
/// edges that end at it.
fn has_referential_integrity(out: &Rendering) -> bool {
    for e in &out.edges {
        if !out.nodes.iter().any(|n| n.id == e.node1) || !out.nodes.iter().any(|n| n.id == e.node2) {
            return false;
        }
    }
    for n in &out.nodes {
        let listed = sorted(&n.edges.iter().map(|e| e.0).collect());
        let mut pointing: Vec<usize> =
            out.edges.iter().filter(|e| e.node1 == n.id || e.node2 == n.id).map(|e| e.id.0).collect();
        pointing.sort();
        if listed != pointing {
            return false;
        }
    }
    true
}

#[test]
fn empty_graph_has_no_nodes() {
    let g = Graph::new();
    assert!(!g.has_node(NodeID(0)));
    assert!(!g.has_edge(EdgeID(0)));
    let out = g.render();
    assert_eq!(out.nodes.len(), 0);
    assert_eq!(out.edges.len(), 0);
    assert_eq!(out.next_node_id, 0);
    assert_eq!(out.next_edge_id, 0);
}

#[test]
fn graph_mirrors_the_base_map() {
    let map = triangle_with_tail();
    let out = map.render_graph();
    let (nodes, edges, next_node, next_edge) = plain(&out);
    assert_eq!(next_node, 6);
    assert_eq!(next_edge, 5);
    assert_eq!(
        nodes,
        vec![
            (0, (0, 0), vec![0, 2], vec![0]),
            (1, (3000, 0), vec![0, 1, 3], vec![1]),
            (2, (0, 3000), vec![1, 2], vec![2]),
            (3, (9000, 0), vec![3], vec![3]),
            (4, (50000, 50000), vec![4], vec![4]),
            (5, (60000, 50000), vec![4], vec![5]),
        ]
    );
    assert_eq!(
        edges,
        vec![
            (0, 0, 1, vec![(0, 0), (3000, 0)], vec![0]),
            (1, 1, 2, vec![(3000, 0), (0, 3000)], vec![1]),
            (2, 2, 0, vec![(0, 3000), (0, 0)], vec![2]),
            (3, 3, 1, vec![(9000, 0), (3000, 0)], vec![3]),
            (4, 4, 5, vec![(50000, 50000), (60000, 50000)], vec![4]),
        ]
    );
    assert!(has_referential_integrity(&out));
}

#[test]
fn find_cycle_on_a_triangle() {
    let g = graph_of(&triangle());
    let path = g.find_cycle(NodeID(0)).unwrap();
    assert_eq!(path.len(), 4);
    assert_eq!(path[0], NodeID(0));
    assert_eq!(path[3], NodeID(0));
    let mut inner = vec![path[1].0, path[2].0];
    inner.sort();
    assert_eq!(inner, vec![1, 2]);
}

#[test]
fn find_cycle_takes_the_last_edge_first() {
    // Node 0 lists edge 0 (to node 1) before edge 2 (to node 2); the search
    // goes on with the path it put on the stack last.
    let g = graph_of(&triangle());
    assert_eq!(g.find_cycle(NodeID(0)), Some(vec![NodeID(0), NodeID(2), NodeID(1), NodeID(0)]));
}

#[test]
fn find_cycle_finds_none_on_a_tree() {
    let elements = vec![
        node(1, 0, 0),
        node(2, 1000, 0),
        node(3, 2000, 0),
        node(4, 1000, 1000),
        highway(10, vec![1, 2]),
        highway(11, vec![2, 3]),
        highway(12, vec![2, 4]),
    ];
    let g = graph_of(&scrape_osm(&elements).unwrap());
    for n in 0..4 {
        assert_eq!(g.find_cycle(NodeID(n)), None);
    }
}

#[test]
fn find_cycle_ignores_a_tail() {
    let g = graph_of(&triangle_with_tail());
    // The end of the tail is on no closed walk.
    assert_eq!(g.find_cycle(NodeID(3)), None);
    assert_eq!(g.find_cycle(NodeID(4)), None);
    assert!(g.find_cycle(NodeID(1)).is_some());
}

#[test]
fn two_roads_between_two_nodes_are_no_cycle() {
    let elements = vec![
        node(1, 0, 0),
        node(2, 1000, 0),
        node(3, 500, 500),
        highway(10, vec![1, 2]),
        highway(11, vec![1, 3, 2]),
    ];
    let map = scrape_osm(&elements).unwrap();
    assert_eq!(map.roads().len(), 2);
    let g = graph_of(&map);
    assert_eq!(g.find_cycle(NodeID(0)), None);
}

#[test]
fn find_cycle_accepts_six_hops_and_no_more() {
    let six = graph_of(&ring(6));
    let path = six.find_cycle(NodeID(0)).unwrap();
    assert_eq!(path.len(), 7);
    assert_eq!(path[0], NodeID(0));
    assert_eq!(path[6], NodeID(0));
    let seven = graph_of(&ring(7));
    assert_eq!(seven.find_cycle(NodeID(0)), None);
}

#[test]
fn find_cycle_walks_only_over_edges() {
    let g = graph_of(&ring(5));
    let path = g.find_cycle(NodeID(2)).unwrap();
    let out = g.render();
    for pair in path.windows(2) {
        assert!(out.edges.iter().any(|e| (e.node1 == pair[0] && e.node2 == pair[1])
            || (e.node1 == pair[1] && e.node2 == pair[0])));
    }
    let mut seen = path[..path.len() - 1].to_vec();
    seen.sort();
    seen.dedup();
    assert_eq!(seen.len(), path.len() - 1);
}

#[test]
fn contracting_a_triangle_leaves_one_node_and_no_edge() {
    let mut map = triangle();
    map.trace_graph_loop(0);
    let out = map.render_graph();
    assert_eq!(out.edges.len(), 0);
    assert_eq!(out.nodes.len(), 1);
    let merged = &out.nodes[0];
    assert_eq!(merged.id, NodeID(3));
    // The mean of (0, 0), (3000, 0) and (0, 3000).
    assert_eq!(merged.point, Coord { x: 1000, y: 1000 });
    assert_eq!(merged.edges.len(), 0);
    let mut stands_for: Vec<usize> = merged.intersections.iter().map(|i| i.0).collect();
    stands_for.sort();
    assert_eq!(stands_for, vec![0, 1, 2]);
    assert_eq!(out.next_node_id, 4);
    assert_eq!(out.next_edge_id, 3);
}

#[test]
fn contraction_keeps_referential_integrity() {
    let mut map = triangle_with_tail();
    map.trace_graph_loop(1);
    let out = map.render_graph();
    assert!(has_referential_integrity(&out));
    let (nodes, edges, next_node, _) = plain(&out);
    assert_eq!(next_node, 7);
    assert_eq!(
        nodes,
        vec![
            (3, (9000, 0), vec![3], vec![3]),
            (4, (50000, 50000), vec![4], vec![4]),
            (5, (60000, 50000), vec![4], vec![5]),
            (6, (1000, 1000), vec![3], vec![0, 1, 2]),
        ]
    );
    // The tail ended at node 1 with its second end: the centroid is put
    // after its centerline.
    assert_eq!(
        edges,
        vec![
            (3, 3, 6, vec![(9000, 0), (3000, 0), (1000, 1000)], vec![3]),
            (4, 4, 5, vec![(50000, 50000), (60000, 50000)], vec![4]),
        ]
    );
}

#[test]
fn contraction_puts_the_centroid_before_a_centerline_that_starts_in_the_loop() {
    let elements = vec![
        node(1, 0, 0),
        node(2, 3000, 0),
        node(3, 0, 3000),
        node(4, 9000, 0),
        highway(10, vec![1, 2]),
        highway(11, vec![2, 3]),
        highway(12, vec![3, 1]),
        highway(13, vec![2, 4]),
    ];
    let mut map = scrape_osm(&elements).unwrap();
    map.trace_graph_loop(0);
    let (_, edges, _, _) = plain(&map.render_graph());
    assert_eq!(edges, vec![(3, 4, 3, vec![(1000, 1000), (3000, 0), (9000, 0)], vec![3])]);
}

#[test]
fn contraction_deletes_every_edge_inside_the_loop() {
    // A square with one diagonal: whichever closed walk is found, no edge
    // between two of its nodes is left.
    let elements = vec![
        node(1, 0, 0),
        node(2, 1000, 0),
        node(3, 1000, 1000),
        node(4, 0, 1000),
        highway(10, vec![1, 2]),
        highway(11, vec![2, 3]),
        highway(12, vec![3, 4]),
        highway(13, vec![4, 1]),
        highway(14, vec![1, 3]),
    ];
    let mut map = scrape_osm(&elements).unwrap();
    let cycle = graph_of(&map).find_cycle(NodeID(0)).unwrap();
    map.trace_graph_loop(0);
    let out = map.render_graph();
    assert!(has_referential_integrity(&out));
    for n in &out.nodes {
        assert!(!cycle.contains(&n.id));
    }
    let merged = NodeID(4);
    for e in &out.edges {
        assert!(e.node1 != e.node2);
        assert!(e.node1 == merged || e.node2 == merged);
    }
}

#[test]
fn contract_cycle_on_a_given_walk() {
    let mut g = graph_of(&triangle_with_tail());
    g.contract_cycle(&vec![NodeID(1), NodeID(0), NodeID(2), NodeID(1)]);
    let out = g.render();
    assert!(has_referential_integrity(&out));
    assert_eq!(out.nodes.len(), 4);
    assert_eq!(out.edges.len(), 2);
    assert!(g.has_node(NodeID(6)));
    assert!(!g.has_node(NodeID(0)));
    assert!(!g.has_edge(EdgeID(0)));
    assert!(g.has_edge(EdgeID(3)));
    assert_eq!(g.next_node_id(), NodeID(7));
    assert_eq!(g.next_edge_id(), EdgeID(5));
}

#[test]
fn handles_are_not_used_again() {
    let mut map = ring(3);
    map.trace_graph_loop(0);
    let out = map.render_graph();
    assert_eq!(out.nodes.len(), 1);
    assert_eq!(out.nodes[0].id, NodeID(3));
    assert!(!map.has_graph_node(0));
    assert!(map.has_graph_node(3));
}

#[test]
fn undo_restores_the_graph() {
    let mut map = triangle_with_tail();
    let before = plain(&map.render_graph());
    assert_eq!(map.undo_depth(), 0);
    map.trace_graph_loop(1);
    assert_eq!(map.undo_depth(), 1);
    assert_ne!(plain(&map.render_graph()), before);
    map.undo_graph();
    assert_eq!(map.undo_depth(), 0);
    assert_eq!(plain(&map.render_graph()), before);
}

#[test]
fn undo_is_last_in_first_out() {
    // Two triangles that share no node.
    let elements = vec![
        node(1, 0, 0),
        node(2, 3000, 0),
        node(3, 0, 3000),
        node(4, 10000, 0),
        node(5, 13000, 0),
        node(6, 10000, 3000),
        highway(10, vec![1, 2]),
        highway(11, vec![2, 3]),
        highway(12, vec![3, 1]),
        highway(13, vec![4, 5]),
        highway(14, vec![5, 6]),
        highway(15, vec![6, 4]),
    ];
    let mut map = scrape_osm(&elements).unwrap();
    let first = plain(&map.render_graph());
    map.trace_graph_loop(0);
    let second = plain(&map.render_graph());
    map.trace_graph_loop(3);
    assert_eq!(map.undo_depth(), 2);
    map.undo_graph();
    assert_eq!(plain(&map.render_graph()), second);
    map.undo_graph();
    assert_eq!(plain(&map.render_graph()), first);
}

#[test]
fn undo_on_an_empty_history_changes_nothing() {
    let mut map = triangle();
    let before = plain(&map.render_graph());
    map.undo_graph();
    assert_eq!(map.undo_depth(), 0);
    assert_eq!(plain(&map.render_graph()), before);
}

#[test]
fn no_cycle_changes_nothing_and_records_nothing() {
    let elements = vec![
        node(1, 0, 0),
        node(2, 1000, 0),
        node(3, 2000, 0),
        highway(10, vec![1, 2]),
        highway(11, vec![2, 3]),
    ];
    let mut map = scrape_osm(&elements).unwrap();
    let before = plain(&map.render_graph());
    map.trace_graph_loop(1);
    assert_eq!(plain(&map.render_graph()), before);
    assert_eq!(map.undo_depth(), 0);
}

#[test]
fn graph_trace_without_a_cycle_changes_nothing() {
    let mut g = graph_of(&triangle_with_tail());
    let before = plain(&g.render());
    g.trace_graph_loop(4);
    assert_eq!(plain(&g.render()), before);
}

#[test]
fn clone_holds_the_same_graph() {
    let g = graph_of(&triangle_with_tail());
    let copy = g.clone();
    assert_eq!(plain(&copy.render()), plain(&g.render()));
}

#[test]
fn nodes_to_edges_names_an_edge_for_each_step() {
    let g = graph_of(&triangle_with_tail());
    let edges = g.nodes_to_edges(&vec![NodeID(3), NodeID(1), NodeID(2), NodeID(0), NodeID(1)]);
    assert_eq!(edges, vec![EdgeID(3), EdgeID(1), EdgeID(2), EdgeID(0)]);
    assert_eq!(g.nodes_to_edges(&vec![]), vec![]);
    assert_eq!(g.nodes_to_edges(&vec![NodeID(0)]), vec![]);
}

#[test]
fn remove_edge_takes_the_edge_off_both_ends() {
    let mut g = graph_of(&triangle_with_tail());
    g.remove_edge(EdgeID(0));
    let out = g.render();
    assert!(has_referential_integrity(&out));
    let (nodes, edges, _, next_edge) = plain(&out);
    assert_eq!(next_edge, 5);
    assert_eq!(edges.iter().map(|e| e.0).collect::<Vec<_>>(), vec![1, 2, 3, 4]);
    assert_eq!(nodes[0].2, vec![2]);
    assert_eq!(nodes[1].2, vec![1, 3]);
    assert!(!g.has_edge(EdgeID(0)));
    // With one side of the triangle gone, no closed walk is left.
    assert_eq!(g.find_cycle(NodeID(0)), None);
}

#[test]
fn other_node_gives_the_far_end() {
    let g = graph_of(&triangle());
    let out = g.render();
    let e = &out.edges[0];
    assert_eq!(e.other_node(NodeID(0)), NodeID(1));
    assert_eq!(e.other_node(NodeID(1)), NodeID(0));
}
