//! Road corridors and junction topology on a local plane.
//!
//! Positions are whole millimetres on a flat plane, so that every rule of the
//! library is stated and proved over integers.

pub mod find_road_width;
pub mod geometry;
pub mod graph;
pub mod intersection_geometry;
pub mod math;
pub mod routing;
pub mod scrape;

use crate::geometry::{all_in_range, Coord, Polygon};
use crate::graph::{mirrors, node_for, Graph, GraphView, NodeID, Rendering};
use vstd::prelude::*;

verus! {

/// The index of a road in the base map.
#[derive(Clone, Copy, Debug, Eq, Hash, PartialEq, PartialOrd, Ord, Structural)]
pub struct RoadID(pub usize);

/// The index of an intersection in the base map.
#[derive(Clone, Copy, Debug, Eq, Hash, PartialEq, PartialOrd, Ord, Structural)]
pub struct IntersectionID(pub usize);

/// The key and value pairs that a way of the source data carries.
pub type Tags = Vec<(String, String)>;

/// What a tag list holds, as text.
pub open spec fn tags_view(tags: Seq<(String, String)>) -> Seq<(Seq<char>, Seq<char>)> {
    tags.map_values(|pair: (String, String)| (pair.0@, pair.1@))
}

/// A copy of `tags`.
pub fn copy_tags(tags: &Tags) -> (copy: Tags)
    ensures
        tags_view(copy@) == tags_view(tags@),
{
    let mut copy: Tags = Vec::new();
    let mut i: usize = 0;
    while i < tags.len()
        invariant
            i <= tags@.len(),
            copy@.len() == i,
            forall|k: int| 0 <= k < i ==> (#[trigger] copy@[k]).0@ == tags@[k].0@ && copy@[k].1@ == tags@[k].1@,
        decreases tags@.len() - i,
    {
        let pair = &tags[i];
        copy.push((pair.0.clone(), pair.1.clone()));
        i += 1;
    }
    assert(tags_view(copy@) =~= tags_view(tags@));
    copy
}

/// A stretch of a way between two intersections.
#[derive(Debug)]
pub struct Road {
    pub id: RoadID,
    /// The way of the source data that the road is a part of.
    pub way: i64,
    /// The nodes of the source data at which the road starts and ends.
    pub node1: i64,
    pub node2: i64,
    pub src_i: IntersectionID,
    pub dst_i: IntersectionID,
    /// The centerline, from `src_i` to `dst_i`.
    pub linestring: Vec<Coord>,
    pub tags: Tags,
    /// The clearance to the left and to the right of the centerline, in
    /// millimetres, and the corridor that they span; absent until measured.
    pub max_left_width: Option<u64>,
    pub max_right_width: Option<u64>,
    pub polygon: Option<Polygon>,
}

/// A node of the source data at which roads end.
#[derive(Debug)]
pub struct Intersection {
    pub id: IntersectionID,
    /// The node of the source data.
    pub node: i64,
    pub point: Coord,
    /// The roads that end here, in the order in which they were found. A road
    /// that starts and ends here is listed twice.
    pub roads: Vec<RoadID>,
}

/// The footprint of a building.
#[derive(Debug)]
pub struct Building {
    /// The way of the source data that outlines the building.
    pub id: i64,
    pub polygon: Polygon,
    pub tags: Tags,
}

/// The base map is sound: roads and intersections are numbered by their
/// place, every road has a centerline of two or more positions between two
/// intersections of the map, and all geometry lies within
/// `geometry::COORD_LIMIT` of the origin.
pub open spec fn base_map_ok(
    roads: Seq<Road>,
    intersections: Seq<Intersection>,
    buildings: Seq<Building>,
) -> bool {
    &&& forall|k: int|
        0 <= k < roads.len() ==> {
            &&& (#[trigger] roads[k]).id.0 == k
            &&& roads[k].src_i.0 < intersections.len()
            &&& roads[k].dst_i.0 < intersections.len()
            &&& roads[k].linestring@.len() >= 2
            &&& all_in_range(roads[k].linestring@)
        }
    &&& forall|k: int| 0 <= k < intersections.len() ==> (#[trigger] intersections[k]).id.0 == k
    &&& forall|k: int| 0 <= k < buildings.len() ==> all_in_range((#[trigger] buildings[k]).polygon@)
}

/// In a map whose intersections are numbered by their place, the node made
/// for an intersection has the number of the intersection.
pub proof fn lemma_node_for_numbered(intersections: Seq<Intersection>, upto: int, key: usize)
    requires
        0 <= upto <= intersections.len(),
        forall|k: int| 0 <= k < intersections.len() ==> (#[trigger] intersections[k]).id.0 == k,
    ensures
        node_for(intersections, upto, key) == (if key < upto {
            Some(key)
        } else {
            None
        }),
    decreases upto,
{
    if upto > 0 {
        lemma_node_for_numbered(intersections, upto - 1, key);
    }
}

/// What one request to contract a loop at `node` does to the graph `g0` and
/// to the undo history `s0`: where a closed walk from `node` exists, the
/// graph from before goes on top of the history and one such walk is
/// contracted; where none exists, nothing changes.
pub open spec fn traced(
    g0: GraphView,
    s0: Seq<GraphView>,
    node: usize,
    g1: GraphView,
    s1: Seq<GraphView>,
) -> bool {
    if g0.has_cycle(node) {
        s1 == s0.push(g0) && exists|path: Seq<usize>|
            g0.is_cycle(node, path) && g1 == #[trigger] g0.contracted_along(path)
    } else {
        g1 == g0 && s1 == s0
    }
}

/// What one undo does: the graph on top of the history comes back and
/// leaves the history; with an empty history nothing changes.
pub open spec fn undone(g0: GraphView, s0: Seq<GraphView>, g1: GraphView, s1: Seq<GraphView>) -> bool {
    if s0.len() == 0 {
        g1 == g0 && s1 == s0
    } else {
        g1 == s0.last() && s1 == s0.drop_last()
    }
}

/// A contraction followed at once by an undo gives back the graph and the
/// history from before the contraction.
pub proof fn lemma_undo_restores(
    g0: GraphView,
    s0: Seq<GraphView>,
    node: usize,
    g1: GraphView,
    s1: Seq<GraphView>,
    g2: GraphView,
    s2: Seq<GraphView>,
)
    requires
        g0.has_cycle(node),
        traced(g0, s0, node, g1, s1),
        undone(g1, s1, g2, s2),
    ensures
        g2 == g0,
        s2 == s0,
{
    assert(s0.push(g0).drop_last() =~= s0);
}

/// A request to contract a loop at a node from which no closed walk exists
/// changes neither the graph nor the undo history.
pub proof fn lemma_no_cycle_no_change(
    g0: GraphView,
    s0: Seq<GraphView>,
    node: usize,
    g1: GraphView,
    s1: Seq<GraphView>,
)
    requires
        !g0.has_cycle(node),
        traced(g0, s0, node, g1, s1),
    ensures
        g1 == g0,
        s1 == s0,
{
}

/// The base map, the topology graph made from it, and the history of the
/// graph's earlier states.
#[derive(Debug)]
pub struct MapModel {
    roads: Vec<Road>,
    intersections: Vec<Intersection>,
    buildings: Vec<Building>,
    graph: Graph,
    graph_undo_stack: Vec<Graph>,
}

impl MapModel {
    pub closed spec fn roads_view(&self) -> Seq<Road> {
        self.roads@
    }

    pub closed spec fn intersections_view(&self) -> Seq<Intersection> {
        self.intersections@
    }

    pub closed spec fn buildings_view(&self) -> Seq<Building> {
        self.buildings@
    }

    /// The topology graph as it is now.
    pub closed spec fn graph_view(&self) -> GraphView {
        self.graph@
    }

    /// The earlier states of the graph that an undo brings back, the latest
    /// last.
    pub closed spec fn undo_views(&self) -> Seq<GraphView> {
        self.graph_undo_stack@.map_values(|g: Graph| g@)
    }

    /// The graph and every graph of the history keep their records in order.
    pub closed spec fn graphs_wf(&self) -> bool {
        &&& self.graph.wf()
        &&& forall|k: int|
            0 <= k < self.graph_undo_stack@.len() ==> (#[trigger] self.graph_undo_stack@[k]).wf()
    }

    /// The base map is sound and the graphs are in order.
    pub open spec fn wf(&self) -> bool {
        &&& base_map_ok(self.roads_view(), self.intersections_view(), self.buildings_view())
        &&& self.graphs_wf()
    }

    /// The graph and every graph of the history keep referential integrity.
    pub proof fn lemma_graphs_well_formed(&self)
        requires
            self.wf(),
        ensures
            self.graph_view().well_formed(),
            forall|k: int|
                0 <= k < self.undo_views().len() ==> (#[trigger] self.undo_views()[k]).well_formed(),
    {
        self.graph.lemma_wf_view();
        assert forall|k: int| 0 <= k < self.undo_views().len() implies (
        #[trigger] self.undo_views()[k]).well_formed() by {
            self.graph_undo_stack@[k].lemma_wf_view();
        }
    }

    /// The model of a base map, with the graph that mirrors it and an empty
    /// history.
    pub fn new(roads: Vec<Road>, intersections: Vec<Intersection>, buildings: Vec<Building>) -> (map:
        MapModel)
        requires
            base_map_ok(roads@, intersections@, buildings@),
        ensures
            map.wf(),
            map.roads_view() == roads@,
            map.intersections_view() == intersections@,
            map.buildings_view() == buildings@,
            mirrors(map.graph_view(), roads@, intersections@),
            map.undo_views().len() == 0,
    {
        proof {
            assert forall|e: int| 0 <= e < roads@.len() implies node_for(
                intersections@,
                intersections@.len() as int,
                (#[trigger] roads@[e]).src_i.0,
            ).is_some() && node_for(
                intersections@,
                intersections@.len() as int,
                roads@[e].dst_i.0,
            ).is_some() by {
                lemma_node_for_numbered(
                    intersections@,
                    intersections@.len() as int,
                    roads@[e].src_i.0,
                );
                lemma_node_for_numbered(
                    intersections@,
                    intersections@.len() as int,
                    roads@[e].dst_i.0,
                );
            }
        }
        let graph = Graph::new_from_map(&roads, &intersections);
        MapModel { roads, intersections, buildings, graph, graph_undo_stack: Vec::new() }
    }

    pub fn roads(&self) -> (roads: &Vec<Road>)
        ensures
            roads@ == self.roads_view(),
    {
        &self.roads
    }

    pub fn intersections(&self) -> (intersections: &Vec<Intersection>)
        ensures
            intersections@ == self.intersections_view(),
    {
        &self.intersections
    }

    pub fn buildings(&self) -> (buildings: &Vec<Building>)
        ensures
            buildings@ == self.buildings_view(),
    {
        &self.buildings
    }

    /// Writes the clearances and the corridor of the road `r` onto its
    /// record.
    pub fn record_width(
        &mut self,
        r: RoadID,
        max_left_width: u64,
        max_right_width: u64,
        polygon: Option<Polygon>,
    )
        requires
            old(self).wf(),
            r.0 < old(self).roads_view().len(),
        ensures
            final(self).wf(),
            final(self).roads_view() == old(self).roads_view().update(
                r.0 as int,
                (Road {
                    max_left_width: Some(max_left_width),
                    max_right_width: Some(max_right_width),
                    polygon: polygon,
                    ..old(self).roads_view()[r.0 as int]
                }),
            ),
            final(self).intersections_view() == old(self).intersections_view(),
            final(self).buildings_view() == old(self).buildings_view(),
            final(self).graph_view() == old(self).graph_view(),
            final(self).undo_views() == old(self).undo_views(),
    {
        let ghost before = self.roads@;
        let road = &mut self.roads[r.0];
        road.max_left_width = Some(max_left_width);
        road.max_right_width = Some(max_right_width);
        road.polygon = polygon;
        proof {
            assert(self.roads@ =~= before.update(
                r.0 as int,
                (Road {
                    max_left_width: Some(max_left_width),
                    max_right_width: Some(max_right_width),
                    polygon: polygon,
                    ..before[r.0 as int]
                }),
            ));
            assert forall|k: int| 0 <= k < self.roads@.len() implies {
                &&& (#[trigger] self.roads@[k]).id.0 == k
                &&& self.roads@[k].src_i.0 < self.intersections@.len()
                &&& self.roads@[k].dst_i.0 < self.intersections@.len()
                &&& self.roads@[k].linestring@.len() >= 2
                &&& all_in_range(self.roads@[k].linestring@)
            } by {
                assert(before[k].id.0 == k);
            }
        }
    }

    /// Tells whether the graph holds a node with this handle.
    pub fn has_graph_node(&self, node: usize) -> (found: bool)
        ensures
            found == self.graph_view().nodes.dom().contains(node),
    {
        self.graph.has_node(NodeID(node))
    }

    /// The number of graph states that can be brought back.
    pub fn undo_depth(&self) -> (depth: usize)
        ensures
            depth == self.undo_views().len(),
    {
        self.graph_undo_stack.len()
    }

    /// A dump of the nodes and edges of the graph as it is now.
    pub fn render_graph(&self) -> (out: Rendering)
        requires
            self.wf(),
        ensures
            out.shows(self.graph_view()),
    {
        self.graph.render()
    }

    /// Contracts a loop at `node`, if the search finds one, and puts the
    /// graph from before on the undo history. Without a loop nothing
    /// changes and nothing is put on the history.
    pub fn trace_graph_loop(&mut self, node: usize)
        requires
            old(self).wf(),
            old(self).graph_view().nodes.dom().contains(node),
        ensures
            final(self).wf(),
            final(self).roads_view() == old(self).roads_view(),
            final(self).intersections_view() == old(self).intersections_view(),
            final(self).buildings_view() == old(self).buildings_view(),
            traced(
                old(self).graph_view(),
                old(self).undo_views(),
                node,
                final(self).graph_view(),
                final(self).undo_views(),
            ),
            final(self).graph_view().well_formed(),
    {
        let ghost s0 = self.undo_views();
        match self.graph.find_cycle(NodeID(node)) {
            Some(cycle) => {
                let before = self.graph.clone();
                self.graph_undo_stack.push(before);
                assert(graph::node_ids(cycle@)[0] == cycle@[0].0);
                self.graph.contract_cycle(&cycle);
                proof {
                    assert(self.undo_views() =~= s0.push(old(self).graph_view()));
                    assert(old(self).graph_view().is_cycle(node, graph::node_ids(cycle@)));
                }
            },
            None => {},
        }
        proof {
            self.graph.lemma_wf_view();
        }
    }

    /// Brings back the graph from before the latest contraction that was
    /// not undone yet; with an empty history nothing changes.
    pub fn undo_graph(&mut self)
        requires
            old(self).wf(),
        ensures
            final(self).wf(),
            final(self).roads_view() == old(self).roads_view(),
            final(self).intersections_view() == old(self).intersections_view(),
            final(self).buildings_view() == old(self).buildings_view(),
            undone(
                old(self).graph_view(),
                old(self).undo_views(),
                final(self).graph_view(),
                final(self).undo_views(),
            ),
    {
        let ghost s0 = self.undo_views();
        let ghost stack0 = self.graph_undo_stack@;
        match self.graph_undo_stack.pop() {
            Some(g) => {
                self.graph = g;
                proof {
                    assert(self.undo_views() =~= s0.drop_last());
                    assert(s0.last() == stack0.last()@);
                }
            },
            None => {},
        }
    }
}

} // verus!
