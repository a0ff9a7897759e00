//! The topology graph: junctions as nodes, roads as edges, edited by
//! contracting small loops into one node.

use crate::geometry::{average, mean_point, Coord};
use crate::{Intersection, IntersectionID, Road, RoadID};
use std::collections::HashMap;
use vstd::prelude::*;

verus! {

/// The longest closed walk, counted in edges, that the cycle search accepts.
pub const MAX_CYCLE_HOPS: usize = 6;

/// The handle of an edge. Handles count up from zero and are never reused.
#[derive(Clone, Copy, Debug, Eq, Hash, PartialEq, PartialOrd, Ord, Structural)]
pub struct EdgeID(pub usize);

/// The handle of a node. Handles count up from zero and are never reused.
#[derive(Clone, Copy, Debug, Eq, Hash, PartialEq, PartialOrd, Ord, Structural)]
pub struct NodeID(pub usize);

/// A road, or a run of roads, between two nodes.
#[derive(Debug)]
pub struct Edge {
    pub id: EdgeID,
    pub node1: NodeID,
    pub node2: NodeID,
    /// The centerline, from `node1` to `node2`.
    pub linestring: Vec<Coord>,
    /// The roads of the base map that this edge stands for, each once.
    pub roads: Vec<RoadID>,
}

/// A junction, or a cluster of junctions merged into one.
#[derive(Debug)]
pub struct Node {
    pub id: NodeID,
    /// The edges that end here, each once.
    pub edges: Vec<EdgeID>,
    pub point: Coord,
    /// The intersections of the base map that this node stands for, each once.
    pub intersections: Vec<IntersectionID>,
}

/// What an edge is, apart from its handle.
pub struct EdgeView {
    pub node1: usize,
    pub node2: usize,
    pub linestring: Seq<Coord>,
    pub roads: Set<usize>,
}

/// What a node is, apart from its handle.
pub struct NodeView {
    pub point: Coord,
    pub edges: Set<usize>,
    pub intersections: Set<usize>,
}

/// The graph as two finite maps from handles to records, with the two
/// counters that hand out the next handles.
pub struct GraphView {
    pub nodes: Map<usize, NodeView>,
    pub edges: Map<usize, EdgeView>,
    pub next_node_id: nat,
    pub next_edge_id: nat,
}

impl EdgeView {
    /// The end of the edge that is not `n`; for a loop edge, `n` itself.
    pub open spec fn other_node(self, n: usize) -> usize {
        if self.node1 == n {
            self.node2
        } else {
            self.node1
        }
    }

    /// The edge joins `a` and `b`, in either direction.
    pub open spec fn joins(self, a: usize, b: usize) -> bool {
        (self.node1 == a && self.node2 == b) || (self.node1 == b && self.node2 == a)
    }

    /// The edge ends at `n`.
    pub open spec fn touches(self, n: usize) -> bool {
        self.node1 == n || self.node2 == n
    }

    /// Both ends of the edge are among `members`.
    pub open spec fn inside(self, members: Set<usize>) -> bool {
        members.contains(self.node1) && members.contains(self.node2)
    }

    /// Exactly one end of the edge is among `members`.
    pub open spec fn leaves(self, members: Set<usize>) -> bool {
        members.contains(self.node1) != members.contains(self.node2)
    }

    /// The edge with its end among `members` moved to the node `to` at the
    /// position `at`: `at` is put before the centerline where the first end
    /// moved, and after it where the second end moved. An edge with no end
    /// among `members` stays as it is.
    pub open spec fn repointed(self, members: Set<usize>, to: usize, at: Coord) -> EdgeView {
        if members.contains(self.node1) {
            EdgeView { node1: to, linestring: self.linestring.insert(0, at), ..self }
        } else if members.contains(self.node2) {
            EdgeView { node2: to, linestring: self.linestring.push(at), ..self }
        } else {
            self
        }
    }
}

impl Edge {
    pub open spec fn view(&self) -> EdgeView {
        EdgeView {
            node1: self.node1.0,
            node2: self.node2.0,
            linestring: self.linestring@,
            roads: Set::new(|r: usize| self.roads@.contains(RoadID(r))),
        }
    }

    /// The end of the edge that is not `n`; for a loop edge, `n` itself.
    pub fn other_node(&self, n: NodeID) -> (other: NodeID)
        requires
            self@.touches(n.0),
        ensures
            other.0 == self@.other_node(n.0),
            self@.joins(n.0, other.0),
    {
        if self.node1 == n {
            self.node2
        } else {
            self.node1
        }
    }
}

impl Clone for Edge {
    fn clone(&self) -> (copy: Self)
        ensures
            copy.id == self.id,
            copy.node1 == self.node1,
            copy.node2 == self.node2,
            copy.linestring@ == self.linestring@,
            copy.roads@ == self.roads@,
            copy@ == self@,
    {
        let copy = Edge {
            id: self.id,
            node1: self.node1,
            node2: self.node2,
            linestring: self.linestring.clone(),
            roads: self.roads.clone(),
        };
        assert(copy@.roads =~= self@.roads);
        copy
    }
}

impl Clone for Node {
    fn clone(&self) -> (copy: Self)
        ensures
            copy.id == self.id,
            copy.point == self.point,
            copy.edges@ == self.edges@,
            copy.intersections@ == self.intersections@,
            copy@ == self@,
    {
        let copy = Node {
            id: self.id,
            edges: self.edges.clone(),
            point: self.point,
            intersections: self.intersections.clone(),
        };
        assert(copy@.edges =~= self@.edges);
        assert(copy@.intersections =~= self@.intersections);
        copy
    }
}

impl Node {
    pub open spec fn view(&self) -> NodeView {
        NodeView {
            point: self.point,
            edges: Set::new(|e: usize| self.edges@.contains(EdgeID(e))),
            intersections: Set::new(|i: usize| self.intersections@.contains(IntersectionID(i))),
        }
    }
}

impl GraphView {
    /// Handles in use lie below the counters, every edge ends at two nodes of
    /// the graph, and a node lists exactly the edges that end at it.
    pub open spec fn well_formed(self) -> bool {
        &&& forall|n: usize| #[trigger] self.nodes.dom().contains(n) ==> n < self.next_node_id
        &&& forall|e: usize| #[trigger] self.edges.dom().contains(e) ==> e < self.next_edge_id
        &&& forall|e: usize| #[trigger]
            self.edges.dom().contains(e) ==> self.nodes.dom().contains(self.edges[e].node1)
                && self.nodes.dom().contains(self.edges[e].node2)
        &&& forall|n: usize, e: usize|
            self.nodes.dom().contains(n) ==> (#[trigger] self.nodes[n].edges.contains(e) <==> (
            self.edges.dom().contains(e) && self.edges[e].touches(n)))
    }

    /// Some edge joins `a` and `b`.
    pub open spec fn adjacent(self, a: usize, b: usize) -> bool {
        exists|e: usize| self.edges.dom().contains(e) && #[trigger] self.edges[e].joins(a, b)
    }

    /// `path` starts at `start`, follows edges, and visits no node twice,
    /// except that its last node may be `start` again once more than three
    /// nodes are on it.
    pub open spec fn is_partial_path(self, start: usize, path: Seq<usize>) -> bool {
        &&& 1 <= path.len() <= MAX_CYCLE_HOPS + 1
        &&& path[0] == start
        &&& forall|i: int| 0 <= i < path.len() ==> self.nodes.dom().contains(#[trigger] path[i])
        &&& forall|i: int|
            0 <= i < path.len() - 1 ==> self.adjacent(#[trigger] path[i], path[i + 1])
        &&& forall|i: int, j: int| 0 <= i < j < path.len() - 1 ==> path[i] != path[j]
        &&& (path.len() > 3 && path.last() == start) || forall|i: int|
            0 <= i < path.len() - 1 ==> path[i] != path.last()
    }

    /// `path` is a closed walk from `start` back to `start` over at least
    /// three and at most `MAX_CYCLE_HOPS` edges that visits no other node
    /// twice.
    pub open spec fn is_cycle(self, start: usize, path: Seq<usize>) -> bool {
        &&& self.is_partial_path(start, path)
        &&& path.len() > 3
        &&& path.last() == start
    }

    /// The positions of the nodes on the closed walk `path`, each once, in
    /// the order of the walk.
    pub open spec fn cycle_points(self, path: Seq<usize>) -> Seq<Coord> {
        Seq::new((path.len() - 1) as nat, |i: int| self.nodes[path[i]].point)
    }

    /// The node that stands for `members` once they are merged at `at`: it
    /// lists the edges that leave the cluster and stands for every
    /// intersection that a member stood for.
    pub open spec fn merged_node(self, members: Set<usize>, at: Coord) -> NodeView {
        NodeView {
            point: at,
            edges: Set::new(
                |e: usize| self.edges.dom().contains(e) && self.edges[e].leaves(members),
            ),
            intersections: Set::new(
                |i: usize|
                    exists|n: usize|
                        members.contains(n) && self.nodes.dom().contains(n)
                            && #[trigger] self.nodes[n].intersections.contains(i),
            ),
        }
    }

    /// The graph after the nodes `members` are merged into one new node at
    /// `at`. The new node takes the next handle. Edges with both ends among
    /// `members` are gone, edges with one end there end at the new node
    /// instead, and everything else is as before.
    pub open spec fn contracted(self, members: Set<usize>, at: Coord) -> GraphView {
        let new_node = self.next_node_id as usize;
        GraphView {
            nodes: Map::new(
                |n: usize| n == new_node || (self.nodes.dom().contains(n) && !members.contains(n)),
                |n: usize|
                    if n == new_node {
                        self.merged_node(members, at)
                    } else {
                        self.nodes[n]
                    },
            ),
            edges: Map::new(
                |e: usize| self.edges.dom().contains(e) && !self.edges[e].inside(members),
                |e: usize| self.edges[e].repointed(members, new_node, at),
            ),
            next_node_id: self.next_node_id + 1,
            next_edge_id: self.next_edge_id,
        }
    }

    /// The graph after the closed walk `path` is contracted: its nodes are
    /// merged at the mean of their positions.
    pub open spec fn contracted_along(self, path: Seq<usize>) -> GraphView {
        self.contracted(path.to_set(), mean_point(self.cycle_points(path)))
    }

    /// The graph without the edge `e`: the edge is gone, and no node lists
    /// it any longer.
    pub open spec fn without_edge(self, e: usize) -> GraphView {
        GraphView {
            nodes: Map::new(
                |n: usize| self.nodes.dom().contains(n),
                |n: usize| NodeView { edges: self.nodes[n].edges.remove(e), ..self.nodes[n] },
            ),
            edges: self.edges.remove(e),
            ..self
        }
    }

    /// Some closed walk from `start` exists.
    pub open spec fn has_cycle(self, start: usize) -> bool {
        exists|path: Seq<usize>| self.is_cycle(start, path)
    }
}

/// Taking an edge out keeps the graph well formed.
pub proof fn lemma_without_edge_well_formed(g: GraphView, e: usize)
    requires
        g.well_formed(),
    ensures
        g.without_edge(e).well_formed(),
{
    let h = g.without_edge(e);
    assert forall|n: usize, x: usize| h.nodes.dom().contains(n) implies (
    #[trigger] h.nodes[n].edges.contains(x) <==> (h.edges.dom().contains(x)
        && h.edges[x].touches(n))) by {
        assert(g.nodes[n].edges.contains(x) <==> (g.edges.dom().contains(x)
            && g.edges[x].touches(n)));
    }
}

/// The node that stands for the intersection `key` when one node is made for
/// each of the first `upto` intersections, in order: the last of them with
/// that identifier, if there is one.
pub open spec fn node_for(intersections: Seq<Intersection>, upto: int, key: usize) -> Option<
    usize,
>
    decreases upto,
{
    if upto <= 0 {
        None
    } else if intersections[upto - 1].id.0 == key {
        Some((upto - 1) as usize)
    } else {
        node_for(intersections, upto - 1, key)
    }
}

/// Every road starts and ends at an intersection of the list.
pub open spec fn roads_are_anchored(
    roads: Seq<Road>,
    intersections: Seq<Intersection>,
) -> bool {
    forall|e: int|
        0 <= e < roads.len() ==> node_for(
            intersections,
            intersections.len() as int,
            (#[trigger] roads[e]).src_i.0,
        ).is_some() && node_for(
            intersections,
            intersections.len() as int,
            roads[e].dst_i.0,
        ).is_some()
}

/// `view` is the base map one to one: node `n` is the `n`-th intersection,
/// edge `e` is the `e`-th road between the nodes of its two intersections,
/// and nothing else is in it.
pub open spec fn mirrors(
    view: GraphView,
    roads: Seq<Road>,
    intersections: Seq<Intersection>,
) -> bool {
    &&& view.next_node_id == intersections.len()
    &&& view.next_edge_id == roads.len()
    &&& forall|n: usize| #[trigger] view.nodes.dom().contains(n) <==> n < intersections.len()
    &&& forall|e: usize| #[trigger] view.edges.dom().contains(e) <==> e < roads.len()
    &&& forall|n: usize|
        n < intersections.len() ==> (#[trigger] view.nodes[n]).point == intersections[n as int].point
            && view.nodes[n].intersections == set![intersections[n as int].id.0]
    &&& forall|e: usize|
        e < roads.len() ==> {
            &&& Some((#[trigger] view.edges[e]).node1) == node_for(
                intersections,
                intersections.len() as int,
                roads[e as int].src_i.0,
            )
            &&& Some(view.edges[e].node2) == node_for(
                intersections,
                intersections.len() as int,
                roads[e as int].dst_i.0,
            )
            &&& view.edges[e].linestring == roads[e as int].linestring@
            &&& view.edges[e].roads == set![roads[e as int].id.0]
        }
}

proof fn lemma_node_for_bound(intersections: Seq<Intersection>, upto: int, key: usize)
    requires
        0 <= upto <= intersections.len(),
    ensures
        match node_for(intersections, upto, key) {
            Some(n) => n < upto,
            None => true,
        },
    decreases upto,
{
    if upto > 0 && intersections[upto - 1].id.0 != key {
        lemma_node_for_bound(intersections, upto - 1, key);
    }
}

/// Merging a set of nodes keeps the graph well formed: every edge that is
/// left ends at nodes that are left, and every node, the new one too, lists
/// exactly the edges that end at it.
pub proof fn lemma_contracted_well_formed(g: GraphView, members: Set<usize>, at: Coord)
    requires
        g.well_formed(),
        g.next_node_id <= usize::MAX,
    ensures
        g.contracted(members, at).well_formed(),
{
    let h = g.contracted(members, at);
    let new_node = g.next_node_id as usize;
    assert forall|e: usize| #[trigger] h.edges.dom().contains(e) implies h.nodes.dom().contains(
        h.edges[e].node1,
    ) && h.nodes.dom().contains(h.edges[e].node2) by {
        assert(g.edges.dom().contains(e));
    }
    assert forall|n: usize, e: usize| h.nodes.dom().contains(n) implies (
    #[trigger] h.nodes[n].edges.contains(e) <==> (h.edges.dom().contains(e)
        && h.edges[e].touches(n))) by {
        if g.edges.dom().contains(e) {
            assert(g.nodes.dom().contains(g.edges[e].node1));
            assert(g.nodes.dom().contains(g.edges[e].node2));
        }
        if n != new_node {
            assert(g.nodes[n].edges.contains(e) <==> (g.edges.dom().contains(e)
                && g.edges[e].touches(n)));
        }
    }
}

/// Where no edge leads from the merged nodes to a node outside, the new node
/// has no edge, and no edge that is left ends at it.
pub proof fn lemma_isolated_loop_leaves_no_edge(g: GraphView, members: Set<usize>, at: Coord)
    requires
        g.well_formed(),
        g.next_node_id <= usize::MAX,
        forall|e: usize| #[trigger] g.edges.dom().contains(e) ==> !g.edges[e].leaves(members),
    ensures
        g.contracted(members, at).nodes[g.next_node_id as usize].edges == Set::<usize>::empty(),
        forall|e: usize| #[trigger]
            g.contracted(members, at).edges.dom().contains(e) ==> !g.contracted(
                members,
                at,
            ).edges[e].touches(g.next_node_id as usize),
{
    let h = g.contracted(members, at);
    let new_node = g.next_node_id as usize;
    assert(h.nodes[new_node].edges =~= Set::<usize>::empty());
    assert forall|e: usize| #[trigger] h.edges.dom().contains(e) implies !h.edges[e].touches(
        new_node,
    ) by {
        assert(g.edges.dom().contains(e));
        assert(g.nodes.dom().contains(g.edges[e].node1));
        assert(g.nodes.dom().contains(g.edges[e].node2));
    }
}

/// The handles that a list of node handles names.
pub open spec fn node_ids(path: Seq<NodeID>) -> Seq<usize> {
    path.map_values(|n: NodeID| n.0)
}

/// The topology graph. Records live in two arenas indexed by handle; a
/// deleted record leaves its slot empty for good.
#[derive(Debug)]
pub struct Graph {
    edges: Vec<Option<Edge>>,
    nodes: Vec<Option<Node>>,
}

/// A dump of the graph: its records by rising handle, and the two counters.
#[derive(Debug)]
pub struct Rendering {
    pub edges: Vec<Edge>,
    pub nodes: Vec<Node>,
    pub next_edge_id: usize,
    pub next_node_id: usize,
}

impl Rendering {
    /// The dump lists the nodes and edges of `graph`, each once, by rising
    /// handle and as the graph holds them, and gives its counters.
    pub open spec fn shows(&self, graph: GraphView) -> bool {
        &&& self.next_node_id == graph.next_node_id
        &&& self.next_edge_id == graph.next_edge_id
        &&& forall|k: int|
            0 <= k < self.nodes@.len() ==> graph.nodes.dom().contains(
                (#[trigger] self.nodes@[k]).id.0,
            ) && self.nodes@[k]@ == graph.nodes[self.nodes@[k].id.0]
        &&& forall|a: int, b: int|
            0 <= a < b < self.nodes@.len() ==> (#[trigger] self.nodes@[a]).id.0 < (
            #[trigger] self.nodes@[b]).id.0
        &&& forall|n: usize| #[trigger]
            graph.nodes.dom().contains(n) ==> exists|k: int|
                0 <= k < self.nodes@.len() && (#[trigger] self.nodes@[k]).id.0 == n
        &&& forall|k: int|
            0 <= k < self.edges@.len() ==> graph.edges.dom().contains(
                (#[trigger] self.edges@[k]).id.0,
            ) && self.edges@[k]@ == graph.edges[self.edges@[k].id.0]
        &&& forall|a: int, b: int|
            0 <= a < b < self.edges@.len() ==> (#[trigger] self.edges@[a]).id.0 < (
            #[trigger] self.edges@[b]).id.0
        &&& forall|e: usize| #[trigger]
            graph.edges.dom().contains(e) ==> exists|k: int|
                0 <= k < self.edges@.len() && (#[trigger] self.edges@[k]).id.0 == e
    }
}

/// `q` is the beginning of `c`.
spec fn is_prefix(q: Seq<usize>, c: Seq<usize>) -> bool {
    q.len() <= c.len() && forall|i: int| 0 <= i < q.len() ==> q[i] == c[i]
}

/// Some path on the stack is the beginning of `c`.
spec fn covered(stack: Seq<Vec<NodeID>>, c: Seq<usize>) -> bool {
    exists|k: int| 0 <= k < stack.len() && is_prefix(node_ids(#[trigger] stack[k]@), c)
}

/// `c` goes on from `q` over one of the edges `edges[from..]` of the node
/// `last`.
spec fn pending(
    view: GraphView,
    edges: Seq<EdgeID>,
    from: int,
    last: usize,
    q: Seq<usize>,
    c: Seq<usize>,
) -> bool {
    &&& is_prefix(q, c)
    &&& c.len() > q.len()
    &&& exists|j: int|
        from <= j < edges.len() && view.edges.dom().contains((#[trigger] edges[j]).0)
            && view.edges[edges[j].0].other_node(last) == c[q.len() as int]
}

/// More than the number of edges that can end at one node.
spec fn branching() -> nat {
    usize::MAX as nat + 1
}

/// A bound on the number of search steps that a path of `len` nodes can
/// still cause.
spec fn path_weight(len: nat) -> nat
    decreases MAX_CYCLE_HOPS + 1 - len,
{
    if len >= MAX_CYCLE_HOPS + 1 {
        1
    } else {
        1 + branching() * path_weight(len + 1)
    }
}

/// The sum of the weights of the paths on the search stack.
spec fn stack_weight(stack: Seq<Vec<NodeID>>) -> nat
    decreases stack.len(),
{
    if stack.len() == 0 {
        0
    } else {
        stack_weight(stack.drop_last()) + path_weight(stack.last()@.len())
    }
}

proof fn lemma_stack_weight_push(stack: Seq<Vec<NodeID>>, path: Vec<NodeID>)
    ensures
        stack_weight(stack.push(path)) == stack_weight(stack) + path_weight(path@.len()),
{
    assert(stack.push(path).drop_last() =~= stack);
}

proof fn lemma_children_weigh_less(len: nat, children: nat)
    requires
        len <= MAX_CYCLE_HOPS,
        children < branching(),
    ensures
        children * path_weight(len + 1) < path_weight(len),
{
    let w = path_weight(len + 1);
    assert(children * w <= branching() * w) by (nonlinear_arith)
        requires
            children < branching(),
            w >= 0,
    ;
}

/// How the slot of an edge looks after the nodes `members` are merged into
/// the node `to` at `at`.
spec fn slot_contracted(
    before: Option<Edge>,
    after: Option<Edge>,
    members: Set<usize>,
    to: usize,
    at: Coord,
) -> bool {
    match before {
        None => after.is_none(),
        Some(b) => if b@.inside(members) {
            after.is_none()
        } else {
            &&& after.is_some()
            &&& after.unwrap().id == b.id
            &&& after.unwrap().roads@ == b.roads@
            &&& after.unwrap().node1.0 == b@.repointed(members, to, at).node1
            &&& after.unwrap().node2.0 == b@.repointed(members, to, at).node2
            &&& after.unwrap().linestring@ == b@.repointed(members, to, at).linestring
        },
    }
}

/// One of the first `upto` nodes of `cycle` has the handle `n`.
spec fn among_first(cycle: Seq<NodeID>, upto: int, n: int) -> bool {
    exists|t: int| 0 <= t < upto && (#[trigger] cycle[t]).0 == n
}

/// One of the first `upto` nodes of `cycle` stood for the intersection `x`.
spec fn stood_for(nodes: Seq<Option<Node>>, cycle: Seq<NodeID>, upto: int, x: usize) -> bool {
    exists|t: int|
        0 <= t < upto && nodes[(#[trigger] cycle[t]).0 as int].unwrap().intersections@.contains(
            IntersectionID(x),
        )
}

/// Tells whether `x` is in `list`.
fn holds_intersection(list: &Vec<IntersectionID>, x: IntersectionID) -> (found: bool)
    ensures
        found == list@.contains(x),
{
    let mut k: usize = 0;
    while k < list.len()
        invariant
            k <= list@.len(),
            forall|t: int| 0 <= t < k ==> list@[t] != x,
        decreases list@.len() - k,
    {
        if list[k] == x {
            return true;
        }
        k += 1;
    }
    false
}

/// Adds to `dst` every handle of `src` that it does not hold yet.
fn append_missing(dst: &mut Vec<IntersectionID>, src: &Vec<IntersectionID>)
    requires
        old(dst)@.no_duplicates(),
    ensures
        final(dst)@.no_duplicates(),
        forall|x: IntersectionID| #[trigger]
            final(dst)@.contains(x) <==> old(dst)@.contains(x) || src@.contains(x),
{
    let mut i: usize = 0;
    while i < src.len()
        invariant
            i <= src@.len(),
            dst@.no_duplicates(),
            forall|x: IntersectionID| #[trigger]
                dst@.contains(x) <==> old(dst)@.contains(x) || src@.subrange(0, i as int).contains(
                    x,
                ),
        decreases src@.len() - i,
    {
        let x = src[i];
        let ghost before = dst@;
        let found = holds_intersection(dst, x);
        if !found {
            dst.push(x);
            proof {
                assert forall|a: int, b: int| 0 <= a < b < dst@.len() implies dst@[a] != dst@[b] by {
                    if b == before.len() {
                        assert(before[a] == dst@[a]);
                    } else {
                        assert(before[a] != before[b]);
                    }
                }
            }
        }
        proof {
            let shorter = src@.subrange(0, i as int);
            let longer = src@.subrange(0, i + 1);
            assert(longer =~= shorter.push(x));
            assert forall|y: IntersectionID| #[trigger]
                dst@.contains(y) <==> old(dst)@.contains(y) || longer.contains(y) by {
                if shorter.contains(y) {
                    let t = choose|t: int| 0 <= t < shorter.len() && shorter[t] == y;
                    assert(longer[t] == y);
                }
                if longer.contains(y) {
                    let t = choose|t: int| 0 <= t < longer.len() && longer[t] == y;
                    if t < i {
                        assert(shorter[t] == y);
                    }
                }
                if before.contains(y) {
                    let t = choose|t: int| 0 <= t < before.len() && before[t] == y;
                    assert(dst@[t] == y);
                }
                if dst@.contains(y) {
                    let t = choose|t: int| 0 <= t < dst@.len() && dst@[t] == y;
                    if t < before.len() {
                        assert(before[t] == y);
                    } else {
                        assert(longer[i as int] == y);
                    }
                }
                if y == x {
                    assert(longer[i as int] == x);
                    if !found {
                        assert(dst@[before.len() as int] == x);
                    }
                }
            }
        }
        i += 1;
    }
    assert(src@.subrange(0, src@.len() as int) =~= src@);
}

/// The slot holds the node made for the `k`-th intersection `it`.
spec fn node_mirrors(slot: Option<Node>, k: int, it: Intersection) -> bool {
    &&& slot.is_some()
    &&& slot.unwrap().id.0 == k
    &&& slot.unwrap().point == it.point
    &&& slot.unwrap().intersections@ == seq![it.id]
    &&& slot.unwrap().edges@.no_duplicates()
}

/// The slot holds the edge made for the `x`-th road `road`.
spec fn edge_mirrors(slot: Option<Edge>, x: int, road: Road, intersections: Seq<Intersection>) -> bool {
    &&& slot.is_some()
    &&& slot.unwrap().id.0 == x
    &&& Some(slot.unwrap().node1.0) == node_for(
        intersections,
        intersections.len() as int,
        road.src_i.0,
    )
    &&& Some(slot.unwrap().node2.0) == node_for(
        intersections,
        intersections.len() as int,
        road.dst_i.0,
    )
    &&& slot.unwrap().linestring@ == road.linestring@
    &&& slot.unwrap().roads@ == seq![road.id]
}

/// The node `k` lists exactly those of the edges made so far that end at it.
spec fn lists_its_edges(slot: Option<Node>, k: int, edges: Seq<Option<Edge>>) -> bool {
    forall|x: usize| #[trigger]
        slot.unwrap().edges@.contains(EdgeID(x)) <==> (x < edges.len() && (
        edges[x as int].unwrap().node1.0 == k || edges[x as int].unwrap().node2.0 == k))
}

/// Puts `e` at the end of the list of the edges that end at `node`.
fn note_edge(node: &mut Node, e: EdgeID)
    requires
        old(node).edges@.no_duplicates(),
        !old(node).edges@.contains(e),
    ensures
        final(node).id == old(node).id,
        final(node).point == old(node).point,
        final(node).intersections == old(node).intersections,
        final(node).edges@ == old(node).edges@.push(e),
        final(node).edges@.no_duplicates(),
        forall|x: EdgeID| #[trigger]
            final(node).edges@.contains(x) <==> old(node).edges@.contains(x) || x == e,
{
    let ghost before = node.edges@;
    node.edges.push(e);
    proof {
        let after = node.edges@;
        assert forall|a: int, b: int| 0 <= a < b < after.len() implies after[a] != after[b] by {
            if b == before.len() {
                assert(before[a] == after[a]);
            } else {
                assert(before[a] != before[b]);
            }
        }
        assert forall|x: EdgeID| #[trigger] after.contains(x) <==> before.contains(x) || x == e by {
            if before.contains(x) {
                let t = choose|t: int| 0 <= t < before.len() && before[t] == x;
                assert(after[t] == x);
            }
            if x == e {
                assert(after[before.len() as int] == x);
            }
            if after.contains(x) {
                let t = choose|t: int| 0 <= t < after.len() && after[t] == x;
                if t < before.len() {
                    assert(before[t] == x);
                }
            }
        }
    }
}

/// Takes `e` off the list of the edges that end at `node`.
fn forget_edge(node: &mut Node, e: EdgeID)
    requires
        old(node).edges@.no_duplicates(),
    ensures
        final(node).id == old(node).id,
        final(node).point == old(node).point,
        final(node).intersections == old(node).intersections,
        final(node).edges@.no_duplicates(),
        forall|x: EdgeID| #[trigger]
            final(node).edges@.contains(x) <==> old(node).edges@.contains(x) && x != e,
{
    let ghost before = node.edges@;
    let mut k: usize = 0;
    while k < node.edges.len()
        invariant
            k <= node.edges@.len(),
            node.edges@ == before,
            before.no_duplicates(),
            before == old(node).edges@,
            node.id == old(node).id,
            node.point == old(node).point,
            node.intersections == old(node).intersections,
            forall|t: int| 0 <= t < k ==> before[t] != e,
        decreases node.edges@.len() - k,
    {
        if node.edges[k] == e {
            node.edges.remove(k);
            proof {
                let after = node.edges@;
                assert(after =~= before.remove(k as int));
                assert forall|a: int, b: int| 0 <= a < b < after.len() implies after[a]
                    != after[b] by {
                    let a0 = if a < k { a } else { a + 1 };
                    let b0 = if b < k { b } else { b + 1 };
                    assert(before[a0] != before[b0]);
                }
                assert forall|x: EdgeID| #[trigger]
                    after.contains(x) <==> before.contains(x) && x != e by {
                    if after.contains(x) {
                        let t = choose|t: int| 0 <= t < after.len() && after[t] == x;
                        let t0 = if t < k { t } else { t + 1 };
                        assert(before[t0] == x);
                        assert(before[t0] != before[k as int]);
                    }
                    if before.contains(x) && x != e {
                        let t = choose|t: int| 0 <= t < before.len() && before[t] == x;
                        let t1 = if t < k { t } else { t - 1 };
                        assert(after[t1] == x);
                    }
                }
            }
            return ;
        }
        k += 1;
    }
    proof {
        assert forall|x: EdgeID| #[trigger]
            before.contains(x) <==> before.contains(x) && x != e by {
            if before.contains(x) {
                let t = choose|t: int| 0 <= t < before.len() && before[t] == x;
                assert(before[t] != e);
            }
        }
    }
}

/// Tells whether `n` is on `path`.
fn path_contains(path: &Vec<NodeID>, n: NodeID) -> (found: bool)
    ensures
        found == node_ids(path@).contains(n.0),
{
    let mut i: usize = 0;
    while i < path.len()
        invariant
            i <= path.len(),
            forall|j: int| 0 <= j < i ==> node_ids(path@)[j] != n.0,
        decreases path.len() - i,
    {
        if path[i] == n {
            assert(node_ids(path@)[i as int] == n.0);
            return true;
        }
        i += 1;
    }
    false
}

/// A copy of `path` with `n` added at its end.
fn path_extended(path: &Vec<NodeID>, n: NodeID) -> (longer: Vec<NodeID>)
    ensures
        longer@ == path@.push(n),
{
    let mut longer: Vec<NodeID> = Vec::new();
    let mut i: usize = 0;
    while i < path.len()
        invariant
            i <= path.len(),
            longer@ == path@.subrange(0, i as int),
        decreases path.len() - i,
    {
        longer.push(path[i]);
        assert(longer@ =~= path@.subrange(0, i + 1));
        i += 1;
    }
    assert(path@.subrange(0, path@.len() as int) =~= path@);
    longer.push(n);
    longer
}

impl Clone for Graph {
    /// A copy that holds the same nodes and edges under the same handles.
    fn clone(&self) -> (copy: Self)
        ensures
            copy@ == self@,
            self.wf() ==> copy.wf(),
    {
        let mut nodes: Vec<Option<Node>> = Vec::new();
        let mut i: usize = 0;
        while i < self.nodes.len()
            invariant
                i <= self.nodes@.len(),
                nodes@.len() == i,
                forall|k: int|
                    0 <= k < i ==> match #[trigger] nodes@[k] {
                        Some(node) => self.nodes@[k].is_some() && node.id
                            == self.nodes@[k].unwrap().id && node.edges@
                            == self.nodes@[k].unwrap().edges@ && node.intersections@
                            == self.nodes@[k].unwrap().intersections@ && node@
                            == self.nodes@[k].unwrap()@,
                        None => self.nodes@[k].is_none(),
                    },
            decreases self.nodes@.len() - i,
        {
            match &self.nodes[i] {
                Some(node) => {
                    nodes.push(Some(node.clone()));
                },
                None => {
                    nodes.push(None);
                },
            }
            i += 1;
        }
        let mut edges: Vec<Option<Edge>> = Vec::new();
        let mut j: usize = 0;
        while j < self.edges.len()
            invariant
                j <= self.edges@.len(),
                edges@.len() == j,
                forall|k: int|
                    0 <= k < j ==> match #[trigger] edges@[k] {
                        Some(edge) => self.edges@[k].is_some() && edge.id
                            == self.edges@[k].unwrap().id && edge.roads@
                            == self.edges@[k].unwrap().roads@ && edge@
                            == self.edges@[k].unwrap()@,
                        None => self.edges@[k].is_none(),
                    },
            decreases self.edges@.len() - j,
        {
            match &self.edges[j] {
                Some(edge) => {
                    edges.push(Some(edge.clone()));
                },
                None => {
                    edges.push(None);
                },
            }
            j += 1;
        }
        let copy = Graph { edges, nodes };
        proof {
            assert(copy@.nodes =~= self@.nodes);
            assert(copy@.edges =~= self@.edges);
        }
        copy
    }
}

impl Graph {
    pub closed spec fn view(&self) -> GraphView {
        GraphView {
            nodes: Map::new(
                |n: usize| n < self.nodes@.len() && self.nodes@[n as int].is_some(),
                |n: usize| self.nodes@[n as int].unwrap()@,
            ),
            edges: Map::new(
                |e: usize| e < self.edges@.len() && self.edges@[e as int].is_some(),
                |e: usize| self.edges@[e as int].unwrap()@,
            ),
            next_node_id: self.nodes@.len(),
            next_edge_id: self.edges@.len(),
        }
    }

    /// Every record sits in the slot of its handle and lists nothing twice,
    /// and the graph as a whole is well formed.
    pub closed spec fn wf(&self) -> bool {
        &&& forall|i: int|
            0 <= i < self.nodes@.len() ==> match #[trigger] self.nodes@[i] {
                Some(n) => n.id.0 == i && n.edges@.no_duplicates()
                    && n.intersections@.no_duplicates(),
                None => true,
            }
        &&& forall|i: int|
            0 <= i < self.edges@.len() ==> match #[trigger] self.edges@[i] {
                Some(e) => e.id.0 == i && e.roads@.no_duplicates(),
                None => true,
            }
        &&& self@.well_formed()
    }

    /// A graph that is well formed keeps the referential integrity that its
    /// view states.
    pub proof fn lemma_wf_view(&self)
        requires
            self.wf(),
        ensures
            self@.well_formed(),
    {
    }

    /// A graph without nodes or edges.
    pub fn new() -> (graph: Graph)
        ensures
            graph.wf(),
            graph@.nodes == Map::<usize, NodeView>::empty(),
            graph@.edges == Map::<usize, EdgeView>::empty(),
            graph@.next_node_id == 0,
            graph@.next_edge_id == 0,
    {
        let graph = Graph { edges: Vec::new(), nodes: Vec::new() };
        assert(graph@.nodes =~= Map::<usize, NodeView>::empty());
        assert(graph@.edges =~= Map::<usize, EdgeView>::empty());
        graph
    }

    /// The graph that mirrors the base map: one node for each intersection
    /// and one edge for each road, in their order.
    pub fn new_from_map(roads: &Vec<Road>, intersections: &Vec<Intersection>) -> (graph: Graph)
        requires
            roads_are_anchored(roads@, intersections@),
        ensures
            graph.wf(),
            graph@.well_formed(),
            mirrors(graph@, roads@, intersections@),
    {
        let mut nodes: Vec<Option<Node>> = Vec::new();
        let mut i_to_node: HashMap<usize, usize> = HashMap::new();
        let mut i: usize = 0;
        while i < intersections.len()
            invariant
                i <= intersections@.len(),
                nodes@.len() == i,
                forall|k: int|
                    0 <= k < i ==> node_mirrors(#[trigger] nodes@[k], k, intersections@[k])
                        && nodes@[k].unwrap().edges@.len() == 0,
                forall|key: usize| #[trigger]
                    i_to_node@.contains_key(key) <==> node_for(
                        intersections@,
                        i as int,
                        key,
                    ).is_some(),
                forall|key: usize|
                    i_to_node@.contains_key(key) ==> Some(#[trigger] i_to_node@[key]) == node_for(
                        intersections@,
                        i as int,
                        key,
                    ),
            decreases intersections@.len() - i,
        {
            let it = &intersections[i];
            let mut ids: Vec<IntersectionID> = Vec::new();
            ids.push(it.id);
            assert(ids@ =~= seq![it.id]);
            nodes.push(Some(Node { id: NodeID(i), edges: Vec::new(), point: it.point, intersections: ids }));
            i_to_node.insert(it.id.0, i);
            i += 1;
        }
        let n: usize = intersections.len();
        let mut edges: Vec<Option<Edge>> = Vec::new();
        let mut e: usize = 0;
        while e < roads.len()
            invariant
                e <= roads@.len(),
                edges@.len() == e,
                n == intersections@.len(),
                nodes@.len() == n,
                roads_are_anchored(roads@, intersections@),
                forall|key: usize| #[trigger]
                    i_to_node@.contains_key(key) <==> node_for(
                        intersections@,
                        n as int,
                        key,
                    ).is_some(),
                forall|key: usize|
                    i_to_node@.contains_key(key) ==> Some(#[trigger] i_to_node@[key]) == node_for(
                        intersections@,
                        n as int,
                        key,
                    ),
                forall|x: int|
                    0 <= x < e ==> edge_mirrors(
                        #[trigger] edges@[x],
                        x,
                        roads@[x],
                        intersections@,
                    ),
                forall|k: int|
                    0 <= k < n ==> node_mirrors(#[trigger] nodes@[k], k, intersections@[k])
                        && lists_its_edges(nodes@[k], k, edges@),
            decreases roads@.len() - e,
        {
            let road = &roads[e];
            let ghost old_nodes = nodes@;
            let ghost old_edges = edges@;
            assert(i_to_node@.contains_key(road.src_i.0));
            assert(i_to_node@.contains_key(road.dst_i.0));
            let mut node1: usize = 0;
            let mut node2: usize = 0;
            match i_to_node.get(&road.src_i.0) {
                Some(found) => {
                    node1 = *found;
                },
                None => {},
            }
            match i_to_node.get(&road.dst_i.0) {
                Some(found) => {
                    node2 = *found;
                },
                None => {},
            }
            proof {
                lemma_node_for_bound(intersections@, n as int, road.src_i.0);
                lemma_node_for_bound(intersections@, n as int, road.dst_i.0);
            }
            let mut ids: Vec<RoadID> = Vec::new();
            ids.push(road.id);
            assert(ids@ =~= seq![road.id]);
            edges.push(
                Some(
                    Edge {
                        id: EdgeID(e),
                        node1: NodeID(node1),
                        node2: NodeID(node2),
                        linestring: road.linestring.clone(),
                        roads: ids,
                    },
                ),
            );
            assert(node_mirrors(old_nodes[node1 as int], node1 as int, intersections@[node1 as int])
                && lists_its_edges(old_nodes[node1 as int], node1 as int, old_edges));
            assert(node_mirrors(old_nodes[node2 as int], node2 as int, intersections@[node2 as int])
                && lists_its_edges(old_nodes[node2 as int], node2 as int, old_edges));
            match &mut nodes[node1] {
                Some(node) => {
                    assert(!node.edges@.contains(EdgeID(e)));
                    note_edge(node, EdgeID(e));
                },
                None => {},
            }
            if node2 != node1 {
                match &mut nodes[node2] {
                    Some(node) => {
                        assert(!node.edges@.contains(EdgeID(e)));
                        note_edge(node, EdgeID(e));
                    },
                    None => {},
                }
            }
            proof {
                assert forall|x: int| 0 <= x < e + 1 implies edge_mirrors(
                    #[trigger] edges@[x],
                    x,
                    roads@[x],
                    intersections@,
                ) by {
                    if x < e {
                        assert(edges@[x] == old_edges[x]);
                    }
                }
                assert forall|k: int| 0 <= k < n implies node_mirrors(
                    #[trigger] nodes@[k],
                    k,
                    intersections@[k],
                ) && lists_its_edges(nodes@[k], k, edges@) by {
                    assert(node_mirrors(old_nodes[k], k, intersections@[k]) && lists_its_edges(
                        old_nodes[k],
                        k,
                        old_edges,
                    ));
                    let before = old_nodes[k].unwrap();
                    let after = nodes@[k].unwrap();
                    assert forall|x: usize| #[trigger]
                        after.edges@.contains(EdgeID(x)) <==> (x < edges@.len() && (
                        edges@[x as int].unwrap().node1.0 == k || edges@[x as int].unwrap().node2.0
                            == k)) by {
                        assert(before.edges@.contains(EdgeID(x)) <==> (x < old_edges.len() && (
                        old_edges[x as int].unwrap().node1.0 == k
                            || old_edges[x as int].unwrap().node2.0 == k)));
                        if x < e {
                            assert(edges@[x as int] == old_edges[x as int]);
                        }
                        if k == node1 || k == node2 {
                            assert(after.edges@.contains(EdgeID(x)) <==> before.edges@.contains(
                                EdgeID(x),
                            ) || EdgeID(x) == EdgeID(e));
                        }
                    }
                }
            }
            e += 1;
        }
        let graph = Graph { edges, nodes };
        proof {
            let view = graph@;
            assert forall|k: usize| #[trigger] view.nodes.dom().contains(k) <==> k < n by {
                if k < n {
                    assert(node_mirrors(graph.nodes@[k as int], k as int, intersections@[k as int]));
                }
            }
            assert forall|x: usize| #[trigger] view.edges.dom().contains(x) <==> x
                < roads@.len() by {
                if x < roads@.len() {
                    assert(edge_mirrors(
                        graph.edges@[x as int],
                        x as int,
                        roads@[x as int],
                        intersections@,
                    ));
                }
            }
            assert forall|k: usize| k < n implies (#[trigger] view.nodes[k]).point
                == intersections@[k as int].point && view.nodes[k].intersections
                == set![intersections@[k as int].id.0] by {
                assert(node_mirrors(graph.nodes@[k as int], k as int, intersections@[k as int]));
                let ids = graph.nodes@[k as int].unwrap().intersections@;
                assert(ids[0] == intersections@[k as int].id);
                assert(view.nodes[k].intersections =~= set![intersections@[k as int].id.0]);
            }
            assert forall|x: usize| x < roads@.len() implies {
                &&& Some((#[trigger] view.edges[x]).node1) == node_for(
                    intersections@,
                    intersections@.len() as int,
                    roads@[x as int].src_i.0,
                )
                &&& Some(view.edges[x].node2) == node_for(
                    intersections@,
                    intersections@.len() as int,
                    roads@[x as int].dst_i.0,
                )
                &&& view.edges[x].linestring == roads@[x as int].linestring@
                &&& view.edges[x].roads == set![roads@[x as int].id.0]
            } by {
                assert(edge_mirrors(
                    graph.edges@[x as int],
                    x as int,
                    roads@[x as int],
                    intersections@,
                ));
                let ids = graph.edges@[x as int].unwrap().roads@;
                assert(ids[0] == roads@[x as int].id);
                assert(view.edges[x].roads =~= set![roads@[x as int].id.0]);
            }
            assert forall|x: usize| #[trigger]
                view.edges.dom().contains(x) implies view.nodes.dom().contains(
                view.edges[x].node1,
            ) && view.nodes.dom().contains(view.edges[x].node2) by {
                assert(edge_mirrors(
                    graph.edges@[x as int],
                    x as int,
                    roads@[x as int],
                    intersections@,
                ));
                lemma_node_for_bound(intersections@, n as int, roads@[x as int].src_i.0);
                lemma_node_for_bound(intersections@, n as int, roads@[x as int].dst_i.0);
            }
            assert forall|k: usize, x: usize| view.nodes.dom().contains(k) implies (
            #[trigger] view.nodes[k].edges.contains(x) <==> (view.edges.dom().contains(x)
                && view.edges[x].touches(k))) by {
                assert(node_mirrors(graph.nodes@[k as int], k as int, intersections@[k as int])
                    && lists_its_edges(graph.nodes@[k as int], k as int, graph.edges@));
                assert(graph.nodes@[k as int].unwrap().edges@.contains(EdgeID(x)) <==> (x
                    < graph.edges@.len() && (graph.edges@[x as int].unwrap().node1.0 == k
                    || graph.edges@[x as int].unwrap().node2.0 == k)));
                if x < roads@.len() {
                    assert(edge_mirrors(
                        graph.edges@[x as int],
                        x as int,
                        roads@[x as int],
                        intersections@,
                    ));
                }
            }
            assert forall|k: int| 0 <= k < graph.nodes@.len() implies match #[trigger] graph.nodes@[k] {
                Some(node) => node.id.0 == k && node.edges@.no_duplicates()
                    && node.intersections@.no_duplicates(),
                None => true,
            } by {
                assert(node_mirrors(graph.nodes@[k], k, intersections@[k]));
            }
            assert forall|x: int| 0 <= x < graph.edges@.len() implies match #[trigger] graph.edges@[x] {
                Some(edge) => edge.id.0 == x && edge.roads@.no_duplicates(),
                None => true,
            } by {
                assert(edge_mirrors(graph.edges@[x], x, roads@[x], intersections@));
            }
        }
        graph
    }

    /// Tells whether a node with this handle is in the graph.
    pub fn has_node(&self, n: NodeID) -> (found: bool)
        ensures
            found == self@.nodes.dom().contains(n.0),
    {
        n.0 < self.nodes.len() && self.nodes[n.0].is_some()
    }

    /// Tells whether an edge with this handle is in the graph.
    pub fn has_edge(&self, e: EdgeID) -> (found: bool)
        ensures
            found == self@.edges.dom().contains(e.0),
    {
        e.0 < self.edges.len() && self.edges[e.0].is_some()
    }

    /// The node with the handle `n`, if the graph holds one.
    pub fn node(&self, n: NodeID) -> (found: Option<&Node>)
        requires
            self.wf(),
        ensures
            match found {
                Some(node) => self@.nodes.dom().contains(n.0) && node@ == self@.nodes[n.0]
                    && node.id == n && node.edges@.no_duplicates(),
                None => !self@.nodes.dom().contains(n.0),
            },
    {
        if n.0 < self.nodes.len() {
            self.nodes[n.0].as_ref()
        } else {
            None
        }
    }

    /// The edge with the handle `e`, if the graph holds one.
    pub fn edge(&self, e: EdgeID) -> (found: Option<&Edge>)
        requires
            self.wf(),
        ensures
            match found {
                Some(edge) => self@.edges.dom().contains(e.0) && edge@ == self@.edges[e.0]
                    && edge.id == e,
                None => !self@.edges.dom().contains(e.0),
            },
    {
        if e.0 < self.edges.len() {
            self.edges[e.0].as_ref()
        } else {
            None
        }
    }

    /// The handle that the next new edge gets.
    pub fn next_edge_id(&self) -> (id: EdgeID)
        ensures
            id.0 == self@.next_edge_id,
    {
        EdgeID(self.edges.len())
    }

    /// The handle that the next new node gets.
    pub fn next_node_id(&self) -> (id: NodeID)
        ensures
            id.0 == self@.next_node_id,
    {
        NodeID(self.nodes.len())
    }

    /// The nodes that the graph holds, by rising handle.
    fn list_nodes(&self) -> (nodes: Vec<Node>)
        requires
            self.wf(),
        ensures
            forall|k: int|
                0 <= k < nodes@.len() ==> self@.nodes.dom().contains((#[trigger] nodes@[k]).id.0)
                    && nodes@[k]@ == self@.nodes[nodes@[k].id.0],
            forall|a: int, b: int|
                0 <= a < b < nodes@.len() ==> (#[trigger] nodes@[a]).id.0 < (
                #[trigger] nodes@[b]).id.0,
            forall|n: usize| #[trigger]
                self@.nodes.dom().contains(n) ==> exists|k: int|
                    0 <= k < nodes@.len() && (#[trigger] nodes@[k]).id.0 == n,
    {
        let mut nodes: Vec<Node> = Vec::new();
        let mut i: usize = 0;
        while i < self.nodes.len()
            invariant
                self.wf(),
                i <= self.nodes@.len(),
                forall|k: int|
                    0 <= k < nodes@.len() ==> (#[trigger] nodes@[k]).id.0 < i
                        && self@.nodes.dom().contains(nodes@[k].id.0) && nodes@[k]@
                        == self@.nodes[nodes@[k].id.0],
                forall|a: int, b: int|
                    0 <= a < b < nodes@.len() ==> (#[trigger] nodes@[a]).id.0 < (
                    #[trigger] nodes@[b]).id.0,
                forall|n: usize|
                    n < i && #[trigger] self@.nodes.dom().contains(n) ==> exists|k: int|
                        0 <= k < nodes@.len() && (#[trigger] nodes@[k]).id.0 == n,
            decreases self.nodes@.len() - i,
        {
            let ghost listed = nodes@;
            match &self.nodes[i] {
                Some(node) => {
                    nodes.push(node.clone());
                },
                None => {},
            }
            proof {
                assert forall|n: usize| n < i + 1 && #[trigger] self@.nodes.dom().contains(
                    n,
                ) implies exists|k: int|
                    0 <= k < nodes@.len() && (#[trigger] nodes@[k]).id.0 == n by {
                    if n < i {
                        let k = choose|k: int|
                            0 <= k < listed.len() && (#[trigger] listed[k]).id.0 == n;
                        assert(nodes@[k].id.0 == n);
                    } else {
                        assert(nodes@[listed.len() as int].id.0 == n);
                    }
                }
            }
            i += 1;
        }
        nodes
    }

    /// The edges that the graph holds, by rising handle.
    fn list_edges(&self) -> (edges: Vec<Edge>)
        requires
            self.wf(),
        ensures
            forall|k: int|
                0 <= k < edges@.len() ==> self@.edges.dom().contains((#[trigger] edges@[k]).id.0)
                    && edges@[k]@ == self@.edges[edges@[k].id.0],
            forall|a: int, b: int|
                0 <= a < b < edges@.len() ==> (#[trigger] edges@[a]).id.0 < (
                #[trigger] edges@[b]).id.0,
            forall|e: usize| #[trigger]
                self@.edges.dom().contains(e) ==> exists|k: int|
                    0 <= k < edges@.len() && (#[trigger] edges@[k]).id.0 == e,
    {
        let mut edges: Vec<Edge> = Vec::new();
        let mut j: usize = 0;
        while j < self.edges.len()
            invariant
                self.wf(),
                j <= self.edges@.len(),
                forall|k: int|
                    0 <= k < edges@.len() ==> (#[trigger] edges@[k]).id.0 < j
                        && self@.edges.dom().contains(edges@[k].id.0) && edges@[k]@
                        == self@.edges[edges@[k].id.0],
                forall|a: int, b: int|
                    0 <= a < b < edges@.len() ==> (#[trigger] edges@[a]).id.0 < (
                    #[trigger] edges@[b]).id.0,
                forall|e: usize|
                    e < j && #[trigger] self@.edges.dom().contains(e) ==> exists|k: int|
                        0 <= k < edges@.len() && (#[trigger] edges@[k]).id.0 == e,
            decreases self.edges@.len() - j,
        {
            let ghost listed = edges@;
            match &self.edges[j] {
                Some(edge) => {
                    edges.push(edge.clone());
                },
                None => {},
            }
            proof {
                assert forall|e: usize| e < j + 1 && #[trigger] self@.edges.dom().contains(
                    e,
                ) implies exists|k: int|
                    0 <= k < edges@.len() && (#[trigger] edges@[k]).id.0 == e by {
                    if e < j {
                        let k = choose|k: int|
                            0 <= k < listed.len() && (#[trigger] listed[k]).id.0 == e;
                        assert(edges@[k].id.0 == e);
                    } else {
                        assert(edges@[listed.len() as int].id.0 == e);
                    }
                }
            }
            j += 1;
        }
        edges
    }

    /// A dump of the nodes and edges that the graph holds.
    pub fn render(&self) -> (out: Rendering)
        requires
            self.wf(),
        ensures
            out.shows(self@),
    {
        let nodes = self.list_nodes();
        let edges = self.list_edges();
        Rendering {
            edges,
            nodes,
            next_edge_id: self.edges.len(),
            next_node_id: self.nodes.len(),
        }
    }

    /// Takes the edge `e` out of the graph and off the lists of the nodes at
    /// its two ends.
    pub fn remove_edge(&mut self, e: EdgeID)
        requires
            old(self).wf(),
            old(self)@.edges.dom().contains(e.0),
        ensures
            final(self).wf(),
            final(self)@.well_formed(),
            final(self)@ == old(self)@.without_edge(e.0),
    {
        let ghost g = self@;
        let ghost old_nodes = self.nodes@;
        let ghost old_edges = self.edges@;
        let mut node1 = NodeID(0);
        let mut node2 = NodeID(0);
        match &self.edges[e.0] {
            Some(edge) => {
                node1 = edge.node1;
                node2 = edge.node2;
            },
            None => {},
        }
        assert(g.edges[e.0].node1 == node1.0 && g.edges[e.0].node2 == node2.0);
        assert(g.nodes.dom().contains(node1.0) && g.nodes.dom().contains(node2.0));
        self.edges[e.0] = None;
        match &mut self.nodes[node1.0] {
            Some(node) => {
                forget_edge(node, e);
            },
            None => {},
        }
        if node2 != node1 {
            match &mut self.nodes[node2.0] {
                Some(node) => {
                    forget_edge(node, e);
                },
                None => {},
            }
        }
        proof {
            let h = g.without_edge(e.0);
            lemma_without_edge_well_formed(g, e.0);
            assert(self@.edges =~= h.edges);
            assert forall|n: usize| h.nodes.dom().contains(n) implies self@.nodes.dom().contains(
                n,
            ) && self@.nodes[n] == h.nodes[n] by {
                let before = old_nodes[n as int].unwrap();
                let after = self.nodes@[n as int].unwrap();
                assert(g.nodes[n] == before@);
                assert(g.nodes[n].edges.contains(e.0) <==> g.edges[e.0].touches(n));
                assert forall|x: usize|
                    after@.edges.contains(x) <==> before@.edges.remove(e.0).contains(x) by {
                    if n == node1.0 || n == node2.0 {
                        assert(after.edges@.contains(EdgeID(x)) <==> before.edges@.contains(
                            EdgeID(x),
                        ) && EdgeID(x) != e);
                    }
                }
                assert(after@.edges =~= before@.edges.remove(e.0));
                assert(after@.intersections =~= before@.intersections);
            }
            assert(self@.nodes =~= h.nodes);
            assert(self@ == h);
        }
    }

    /// If a closed walk from `node` exists, contracts the one that the
    /// search finds; else leaves the graph as it is.
    pub fn trace_graph_loop(&mut self, node: usize)
        requires
            old(self).wf(),
            old(self)@.nodes.dom().contains(node),
        ensures
            final(self).wf(),
            final(self)@.well_formed(),
            !old(self)@.has_cycle(node) ==> final(self)@ == old(self)@,
            old(self)@.has_cycle(node) ==> exists|path: Seq<usize>|
                old(self)@.is_cycle(node, path) && final(self)@ == old(self)@.contracted_along(
                    path,
                ),
    {
        match self.find_cycle(NodeID(node)) {
            Some(nodes) => {
                assert(node_ids(nodes@)[0] == nodes@[0].0);
                self.contract_cycle(&nodes);
                assert(old(self)@.is_cycle(node, node_ids(nodes@)));
            },
            None => {},
        }
    }

    /// For each step of `path`, an edge of the graph that joins the two
    /// nodes of the step.
    pub fn nodes_to_edges(&self, path: &Vec<NodeID>) -> (edges: Vec<EdgeID>)
        requires
            self.wf(),
            forall|i: int|
                0 <= i < path@.len() ==> self@.nodes.dom().contains((#[trigger] path@[i]).0),
            forall|i: int|
                0 <= i < path@.len() - 1 ==> self@.adjacent(
                    (#[trigger] path@[i]).0,
                    path@[i + 1].0,
                ),
        ensures
            edges@.len() == (if path@.len() == 0 {
                0
            } else {
                path@.len() - 1
            }),
            forall|i: int|
                0 <= i < edges@.len() ==> self@.edges.dom().contains((#[trigger] edges@[i]).0)
                    && self@.edges[edges@[i].0].joins(path@[i].0, path@[i + 1].0),
    {
        let mut edges: Vec<EdgeID> = Vec::new();
        if path.len() == 0 {
            return edges;
        }
        let mut i: usize = 0;
        while i < path.len() - 1
            invariant
                self.wf(),
                path@.len() > 0,
                i <= path@.len() - 1,
                edges@.len() == i,
                forall|i: int|
                    0 <= i < path@.len() ==> self@.nodes.dom().contains((#[trigger] path@[i]).0),
                forall|i: int|
                    0 <= i < path@.len() - 1 ==> self@.adjacent(
                        (#[trigger] path@[i]).0,
                        path@[i + 1].0,
                    ),
                forall|k: int|
                    0 <= k < edges@.len() ==> self@.edges.dom().contains((#[trigger] edges@[k]).0)
                        && self@.edges[edges@[k].0].joins(path@[k].0, path@[k + 1].0),
            decreases path@.len() - 1 - i,
        {
            let from = path[i];
            let to = path[i + 1];
            assert(self@.nodes.dom().contains(path@[i as int].0));
            assert(self@.adjacent(path@[i as int].0, path@[i + 1].0));
            let node = self.nodes[from.0].as_ref().unwrap();
            let ghost witness = choose|e: usize|
                self@.edges.dom().contains(e) && #[trigger] self@.edges[e].joins(from.0, to.0);
            proof {
                assert(self@.nodes[from.0] == node@);
                assert(self@.edges[witness].touches(from.0));
                assert(node@.edges.contains(witness));
                assert(node.edges@.contains(EdgeID(witness)));
            }
            let mut k: usize = 0;
            let mut found: Option<EdgeID> = None;
            while k < node.edges.len() && found.is_none()
                invariant
                    self.wf(),
                    self@.nodes.dom().contains(from.0),
                    *node == self.nodes@[from.0 as int].unwrap(),
                    k <= node.edges@.len(),
                    found.is_none() ==> exists|t: int|
                        k <= t < node.edges@.len() && node.edges@[t] == EdgeID(witness),
                    self@.edges.dom().contains(witness),
                    self@.edges[witness].joins(from.0, to.0),
                    match found {
                        Some(e) => self@.edges.dom().contains(e.0) && self@.edges[e.0].joins(
                            from.0,
                            to.0,
                        ),
                        None => true,
                    },
                decreases node.edges@.len() - k + (if found.is_none() { 1int } else { 0int }),
            {
                let e = node.edges[k];
                assert(node@.edges.contains(e.0));
                assert(self@.nodes[from.0] == node@);
                assert(self@.edges.dom().contains(e.0) && self@.edges[e.0].touches(from.0));
                let edge = self.edges[e.0].as_ref().unwrap();
                if edge.other_node(from) == to {
                    found = Some(e);
                } else {
                    proof {
                        let t = choose|t: int|
                            k <= t < node.edges@.len() && node.edges@[t] == EdgeID(witness);
                        assert(t != k);
                    }
                    k += 1;
                }
            }
            edges.push(found.unwrap());
            i += 1;
        }
        edges
    }

    /// The positions of the nodes on the closed walk `cycle`, each once.
    fn cycle_points(&self, cycle: &Vec<NodeID>) -> (pts: Vec<Coord>)
        requires
            cycle@.len() >= 1,
            forall|i: int|
                0 <= i < cycle@.len() ==> self@.nodes.dom().contains((#[trigger] cycle@[i]).0),
        ensures
            pts@ == self@.cycle_points(node_ids(cycle@)),
    {
        let mut pts: Vec<Coord> = Vec::new();
        let mut i: usize = 0;
        let n: usize = cycle.len() - 1;
        while i < n
            invariant
                i <= n,
                n == cycle@.len() - 1,
                forall|i: int|
                    0 <= i < cycle@.len() ==> self@.nodes.dom().contains((#[trigger] cycle@[i]).0),
                pts@.len() == i,
                forall|k: int|
                    0 <= k < i ==> pts@[k] == self@.nodes[(#[trigger] cycle@[k]).0].point,
            decreases n - i,
        {
            assert(self@.nodes.dom().contains(cycle@[i as int].0));
            let node = self.nodes[cycle[i].0].as_ref().unwrap();
            pts.push(node.point);
            i += 1;
        }
        assert(pts@ =~= self@.cycle_points(node_ids(cycle@)));
        pts
    }

    /// Merges the nodes of the closed walk `cycle` into one new node at the
    /// mean of their positions. Edges between two nodes of the walk are
    /// deleted; edges from a node of the walk to a node outside it end at
    /// the new node instead, which their centerlines are made to reach.
    pub fn contract_cycle(&mut self, cycle: &Vec<NodeID>)
        requires
            old(self).wf(),
            cycle@.len() > 0,
            old(self)@.is_cycle(cycle@[0].0, node_ids(cycle@)),
        ensures
            final(self).wf(),
            final(self)@.well_formed(),
            final(self)@ == old(self)@.contracted_along(node_ids(cycle@)),
    {
        let ghost g = self@;
        let ghost path = node_ids(cycle@);
        let ghost members = path.to_set();
        proof {
            assert forall|i: int| 0 <= i < cycle@.len() implies self@.nodes.dom().contains(
                (#[trigger] cycle@[i]).0,
            ) by {
                assert(self@.nodes.dom().contains(path[i]));
            }
        }
        let pts = self.cycle_points(cycle);
        let centroid = average(&pts);
        let new_node = NodeID(self.nodes.len());
        let ghost old_edges = self.edges@;
        let ghost old_nodes = self.nodes@;

        let mut kept: Vec<EdgeID> = Vec::new();
        let mut i: usize = 0;
        while i < self.edges.len()
            invariant
                i <= self.edges@.len(),
                self.edges@.len() == old_edges.len(),
                self.nodes@ == old_nodes,
                members == node_ids(cycle@).to_set(),
                forall|k: int| i <= k < old_edges.len() ==> self.edges@[k] == old_edges[k],
                forall|k: int|
                    0 <= k < i ==> slot_contracted(
                        old_edges[k],
                        #[trigger] self.edges@[k],
                        members,
                        new_node.0,
                        centroid,
                    ),
                forall|k: int| 0 <= k < kept@.len() ==> (#[trigger] kept@[k]).0 < i,
                kept@.no_duplicates(),
                forall|e: usize|
                    kept@.contains(EdgeID(e)) <==> (e < i && old_edges[e as int].is_some()
                        && old_edges[e as int].unwrap()@.leaves(members)),
            decreases self.edges@.len() - i,
        {
            let ghost kept_before = kept@;
            let mut in1 = false;
            let mut in2 = false;
            match &self.edges[i] {
                Some(edge) => {
                    in1 = path_contains(cycle, edge.node1);
                    in2 = path_contains(cycle, edge.node2);
                },
                None => {},
            }
            if in1 && in2 {
                self.edges[i] = None;
            } else if in1 {
                match &mut self.edges[i] {
                    Some(edge) => {
                        edge.node1 = new_node;
                        edge.linestring.insert(0, centroid);
                    },
                    None => {},
                }
                kept.push(EdgeID(i));
            } else if in2 {
                match &mut self.edges[i] {
                    Some(edge) => {
                        edge.node2 = new_node;
                        edge.linestring.push(centroid);
                    },
                    None => {},
                }
                kept.push(EdgeID(i));
            }
            proof {
                assert(slot_contracted(
                    old_edges[i as int],
                    self.edges@[i as int],
                    members,
                    new_node.0,
                    centroid,
                ));
                assert forall|e: usize|
                    kept@.contains(EdgeID(e)) <==> (e < i + 1 && old_edges[e as int].is_some()
                        && old_edges[e as int].unwrap()@.leaves(members)) by {
                    if kept_before.contains(EdgeID(e)) {
                        let t = choose|t: int|
                            0 <= t < kept_before.len() && kept_before[t] == EdgeID(e);
                        assert(kept@[t] == EdgeID(e));
                    }
                    if kept@.contains(EdgeID(e)) {
                        let t = choose|t: int| 0 <= t < kept@.len() && kept@[t] == EdgeID(e);
                        if t < kept_before.len() {
                            assert(kept_before[t] == EdgeID(e));
                        }
                    }
                    if e == i && in1 != in2 {
                        assert(kept@[kept_before.len() as int] == EdgeID(e));
                    }
                }
            }
            i += 1;
        }

        let ghost new_edges = self.edges@;
        let mut intersections: Vec<IntersectionID> = Vec::new();
        let mut j: usize = 0;
        let n: usize = cycle.len() - 1;
        while j < n
            invariant
                j <= n,
                n == cycle@.len() - 1,
                path == node_ids(cycle@),
                forall|a: int, b: int| 0 <= a < b < n ==> path[a] != path[b],
                self.edges@ == new_edges,
                self.nodes@.len() == old_nodes.len(),
                forall|i: int|
                    0 <= i < cycle@.len() ==> (#[trigger] cycle@[i]).0 < old_nodes.len()
                        && old_nodes[cycle@[i].0 as int].is_some(),
                forall|k: int|
                    0 <= k < old_nodes.len() ==> #[trigger] self.nodes@[k] == (if among_first(
                        cycle@,
                        j as int,
                        k,
                    ) {
                        None
                    } else {
                        old_nodes[k]
                    }),
                intersections@.no_duplicates(),
                forall|x: usize|
                    intersections@.contains(IntersectionID(x)) <==> stood_for(
                        old_nodes,
                        cycle@,
                        j as int,
                        x,
                    ),
            decreases n - j,
        {
            let member = cycle[j];
            let ghost held = intersections@;
            match &self.nodes[member.0] {
                Some(node) => {
                    append_missing(&mut intersections, &node.intersections);
                },
                None => {},
            }
            self.nodes[member.0] = None;
            proof {
                assert forall|k: int| 0 <= k < old_nodes.len() implies #[trigger] self.nodes@[k]
                    == (if among_first(cycle@, j + 1, k) {
                    None
                } else {
                    old_nodes[k]
                }) by {
                    if among_first(cycle@, j as int, k) {
                        let t = choose|t: int| 0 <= t < j && (#[trigger] cycle@[t]).0 == k;
                        assert(cycle@[t].0 == k);
                    }
                    if among_first(cycle@, j + 1, k) {
                        let t = choose|t: int| 0 <= t < j + 1 && (#[trigger] cycle@[t]).0 == k;
                        if t < j {
                            assert(among_first(cycle@, j as int, k));
                        }
                    }
                    if k == member.0 {
                        assert(cycle@[j as int].0 == k);
                    }
                }
                assert(!among_first(cycle@, j as int, member.0 as int)) by {
                    if among_first(cycle@, j as int, member.0 as int) {
                        let t = choose|t: int|
                            0 <= t < j && (#[trigger] cycle@[t]).0 == member.0;
                        assert(path[t] == path[j as int]);
                    }
                }
                assert forall|x: usize|
                    intersections@.contains(IntersectionID(x)) <==> stood_for(
                        old_nodes,
                        cycle@,
                        j + 1,
                        x,
                    ) by {
                    if stood_for(old_nodes, cycle@, j as int, x) {
                        let t = choose|t: int|
                            0 <= t < j && old_nodes[(
                            #[trigger] cycle@[t]).0 as int].unwrap().intersections@.contains(
                                IntersectionID(x),
                            );
                        assert(old_nodes[cycle@[t].0 as int].unwrap().intersections@.contains(
                            IntersectionID(x),
                        ));
                    }
                    if stood_for(old_nodes, cycle@, j + 1, x) {
                        let t = choose|t: int|
                            0 <= t < j + 1 && old_nodes[(
                            #[trigger] cycle@[t]).0 as int].unwrap().intersections@.contains(
                                IntersectionID(x),
                            );
                        if t < j {
                            assert(stood_for(old_nodes, cycle@, j as int, x));
                        }
                    }
                    if old_nodes[member.0 as int].unwrap().intersections@.contains(
                        IntersectionID(x),
                    ) {
                        assert(old_nodes[cycle@[j as int].0 as int].unwrap().intersections@.contains(
                            IntersectionID(x),
                        ));
                    }
                }
            }
            j += 1;
        }

        self.nodes.push(
            Some(Node { id: new_node, edges: kept, point: centroid, intersections }),
        );
        proof {
            let h = g.contracted(members, centroid);
            lemma_contracted_well_formed(g, members, centroid);
            assert forall|k: usize| members.contains(k) <==> among_first(
                cycle@,
                n as int,
                k as int,
            ) by {
                if members.contains(k) {
                    let t = choose|t: int| 0 <= t < path.len() && path[t] == k;
                    if t == n {
                        assert(cycle@[0].0 == k);
                    } else {
                        assert(cycle@[t].0 == k);
                    }
                }
                if among_first(cycle@, n as int, k as int) {
                    let t = choose|t: int| 0 <= t < n && (#[trigger] cycle@[t]).0 == k;
                    assert(path[t] == k);
                }
            }
            assert forall|e: usize| h.edges.dom().contains(e) implies self@.edges.dom().contains(e)
                && self@.edges[e] == h.edges[e] by {
                assert(slot_contracted(
                    old_edges[e as int],
                    self.edges@[e as int],
                    members,
                    new_node.0,
                    centroid,
                ));
                assert(self@.edges[e].roads =~= h.edges[e].roads);
            }
            assert forall|e: usize| self@.edges.dom().contains(e) implies h.edges.dom().contains(
                e,
            ) by {
                assert(slot_contracted(
                    old_edges[e as int],
                    self.edges@[e as int],
                    members,
                    new_node.0,
                    centroid,
                ));
            }
            assert(self@.edges =~= h.edges);
            assert forall|k: usize| h.nodes.dom().contains(k) <==> self@.nodes.dom().contains(
                k,
            ) by {
                if k < old_nodes.len() {
                    assert(self.nodes@[k as int] == (if among_first(cycle@, n as int, k as int) {
                        None
                    } else {
                        old_nodes[k as int]
                    }));
                }
            }
            let merged = self.nodes@[new_node.0 as int].unwrap()@;
            assert(merged.edges =~= g.merged_node(members, centroid).edges);
            assert forall|x: usize|
                merged.intersections.contains(x) <==> g.merged_node(
                    members,
                    centroid,
                ).intersections.contains(x) by {
                if stood_for(old_nodes, cycle@, n as int, x) {
                    let t = choose|t: int|
                        0 <= t < n && old_nodes[(
                        #[trigger] cycle@[t]).0 as int].unwrap().intersections@.contains(
                            IntersectionID(x),
                        );
                    let m = cycle@[t].0;
                    assert(path[t] == m);
                    assert(members.contains(m));
                    assert(g.nodes[m].intersections.contains(x));
                }
                if g.merged_node(members, centroid).intersections.contains(x) {
                    let m = choose|m: usize|
                        members.contains(m) && g.nodes.dom().contains(m)
                            && #[trigger] g.nodes[m].intersections.contains(x);
                    assert(among_first(cycle@, n as int, m as int));
                    let t = choose|t: int| 0 <= t < n && (#[trigger] cycle@[t]).0 == m;
                    assert(old_nodes[cycle@[t].0 as int].unwrap().intersections@.contains(
                        IntersectionID(x),
                    ));
                }
            }
            assert(merged.intersections =~= g.merged_node(members, centroid).intersections);
            assert forall|k: usize| h.nodes.dom().contains(k) implies self@.nodes[k]
                == h.nodes[k] by {
                if k < old_nodes.len() {
                    assert(self.nodes@[k as int] == (if among_first(cycle@, n as int, k as int) {
                        None
                    } else {
                        old_nodes[k as int]
                    }));
                }
            }
            assert(self@.nodes =~= h.nodes);
            assert(self@ == h);
            assert forall|k: int| 0 <= k < self.nodes@.len() implies match #[trigger] self.nodes@[k] {
                Some(node) => node.id.0 == k && node.edges@.no_duplicates()
                    && node.intersections@.no_duplicates(),
                None => true,
            } by {
                if k < old_nodes.len() {
                    assert(self.nodes@[k] == (if among_first(cycle@, n as int, k) {
                        None
                    } else {
                        old_nodes[k]
                    }));
                }
            }
            assert forall|k: int| 0 <= k < self.edges@.len() implies match #[trigger] self.edges@[k] {
                Some(edge) => edge.id.0 == k && edge.roads@.no_duplicates(),
                None => true,
            } by {
                assert(slot_contracted(
                    old_edges[k],
                    self.edges@[k],
                    members,
                    new_node.0,
                    centroid,
                ));
            }
        }
    }

    /// A closed walk that begins with the path taken off the stack, which is
    /// not closed itself, either begins with a path left on the stack or goes
    /// on over an edge of the path's last node.
    proof fn lemma_cycle_goes_on(
        &self,
        on_node: NodeID,
        before: Seq<Vec<NodeID>>,
        current_path: Vec<NodeID>,
        c: Seq<usize>,
    )
        requires
            self.wf(),
            before.len() > 0,
            before.last() == current_path,
            covered(before, c),
            self@.is_cycle(on_node.0, c),
            self@.is_partial_path(on_node.0, node_ids(current_path@)),
            !(current_path@.len() > 2 && current_path@.last() == on_node),
        ensures
            covered(before.drop_last(), c) || pending(
                self@,
                self.nodes@[current_path@.last().0 as int].unwrap().edges@,
                0,
                current_path@.last().0,
                node_ids(current_path@),
                c,
            ),
    {
        let rest = before.drop_last();
        let q = node_ids(current_path@);
        let i = choose|i: int|
            0 <= i < before.len() && is_prefix(node_ids(#[trigger] before[i]@), c);
        if i < rest.len() {
            assert(rest[i] == before[i]);
        } else {
            assert(is_prefix(q, c));
            let last = current_path@.last().0;
            assert(q.last() == last);
            if c.len() == q.len() {
                assert(c.last() == q.last());
                assert(current_path@.last() == on_node);
            }
            let pos = q.len() as int;
            assert(c[pos - 1] == last);
            assert(self@.adjacent(c[pos - 1], c[pos]));
            let e = choose|e: usize|
                self@.edges.dom().contains(e) && #[trigger] self@.edges[e].joins(last, c[pos]);
            assert(self@.nodes.dom().contains(last));
            assert(self@.edges[e].touches(last));
            assert(self@.nodes[last].edges.contains(e));
            let edges = self.nodes@[last as int].unwrap().edges@;
            assert(edges.contains(EdgeID(e)));
            let j = choose|j: int| 0 <= j < edges.len() && edges[j] == EdgeID(e);
            assert(self@.edges.dom().contains(edges[j].0));
            assert(self@.edges[edges[j].0].other_node(last) == c[pos]);
        }
    }

    /// Searches, depth first and last found first, for a closed walk from
    /// `on_node` back to itself. The walk comes back as the list of its
    /// nodes, `on_node` first and last.
    pub fn find_cycle(&self, on_node: NodeID) -> (found: Option<Vec<NodeID>>)
        requires
            self.wf(),
            self@.nodes.dom().contains(on_node.0),
        ensures
            match found {
                Some(path) => self@.is_cycle(on_node.0, node_ids(path@)),
                None => !self@.has_cycle(on_node.0),
            },
    {
        let mut queue: Vec<Vec<NodeID>> = Vec::new();
        let mut first: Vec<NodeID> = Vec::new();
        first.push(on_node);
        queue.push(first);
        proof {
            assert forall|c: Seq<usize>| self@.is_cycle(on_node.0, c) implies covered(
                queue@,
                c,
            ) by {
                assert(is_prefix(node_ids(queue@[0]@), c));
            }
        }
        while queue.len() > 0
            invariant
                self.wf(),
                self@.nodes.dom().contains(on_node.0),
                forall|k: int|
                    0 <= k < queue@.len() ==> self@.is_partial_path(
                        on_node.0,
                        node_ids(#[trigger] queue@[k]@),
                    ),
                forall|c: Seq<usize>| self@.is_cycle(on_node.0, c) ==> covered(queue@, c),
            decreases stack_weight(queue@),
        {
            let ghost before = queue@;
            let current_path = queue.pop().unwrap();
            let ghost rest = queue@;
            let ghost q = node_ids(current_path@);
            assert(before.drop_last() == rest);
            assert(stack_weight(before) == stack_weight(rest) + path_weight(
                current_path@.len(),
            ));
            assert(self@.is_partial_path(on_node.0, q));
            let len: usize = current_path.len();
            let last_node = current_path[len - 1];
            assert(last_node.0 == q.last());
            if len > 2 && last_node == on_node {
                return Some(current_path);
            }
            assert(self@.nodes.dom().contains(q[len - 1]));
            let node = self.nodes[last_node.0].as_ref().unwrap();
            proof {
                assert forall|c: Seq<usize>| self@.is_cycle(on_node.0, c) implies covered(rest, c)
                    || pending(self@, node.edges@, 0, last_node.0, q, c) by {
                    self.lemma_cycle_goes_on(on_node, before, current_path, c);
                }
            }
            if len <= MAX_CYCLE_HOPS {
                let mut k: usize = 0;
                let ghost mut pushed: nat = 0;
                while k < node.edges.len()
                    invariant
                        self.wf(),
                        self@.nodes.dom().contains(on_node.0),
                        self@.nodes.dom().contains(last_node.0),
                        *node == self.nodes@[last_node.0 as int].unwrap(),
                        k <= node.edges@.len(),
                        q == node_ids(current_path@),
                        len == current_path@.len(),
                        1 <= len <= MAX_CYCLE_HOPS,
                        last_node.0 == q.last(),
                        !(len > 2 && last_node == on_node),
                        self@.is_partial_path(on_node.0, q),
                        forall|k: int|
                            0 <= k < queue@.len() ==> self@.is_partial_path(
                                on_node.0,
                                node_ids(#[trigger] queue@[k]@),
                            ),
                        forall|c: Seq<usize>|
                            self@.is_cycle(on_node.0, c) ==> covered(queue@, c) || pending(
                                self@,
                                node.edges@,
                                k as int,
                                last_node.0,
                                q,
                                c,
                            ),
                        pushed <= k,
                        stack_weight(queue@) == stack_weight(rest) + pushed * path_weight(
                            (len + 1) as nat,
                        ),
                    decreases node.edges@.len() - k,
                {
                    let e = node.edges[k];
                    assert(node@.edges.contains(e.0));
                    assert(self@.nodes[last_node.0] == node@);
                    assert(self@.edges.dom().contains(e.0) && self@.edges[e.0].touches(
                        last_node.0,
                    ));
                    let edge = self.edges[e.0].as_ref().unwrap();
                    let next_node = edge.other_node(last_node);
                    let seen = path_contains(&current_path, next_node);
                    let ghost stack_before = queue@;
                    if !seen || (next_node == on_node && len > 2) {
                        let new_path = path_extended(&current_path, next_node);
                        queue.push(new_path);
                        proof {
                            lemma_stack_weight_push(stack_before, new_path);
                            pushed = pushed + 1;
                            assert((pushed - 1) * path_weight((len + 1) as nat) + path_weight(
                                (len + 1) as nat,
                            ) == pushed * path_weight((len + 1) as nat)) by (nonlinear_arith);
                            assert(node_ids(new_path@) =~= q.push(next_node.0));
                            assert(self@.adjacent(last_node.0, next_node.0));
                            assert(self@.nodes.dom().contains(next_node.0));
                            assert(self@.is_partial_path(on_node.0, q.push(next_node.0)));
                        }
                    }
                    proof {
                        assert forall|c: Seq<usize>| self@.is_cycle(on_node.0, c) implies covered(
                            queue@,
                            c,
                        ) || pending(self@, node.edges@, k + 1, last_node.0, q, c) by {
                            if covered(stack_before, c) {
                                let i = choose|i: int|
                                    0 <= i < stack_before.len() && is_prefix(
                                        node_ids(#[trigger] stack_before[i]@),
                                        c,
                                    );
                                assert(queue@[i] == stack_before[i]);
                            } else {
                                assert(pending(self@, node.edges@, k as int, last_node.0, q, c));
                                let j = choose|j: int|
                                    k <= j < node.edges@.len() && self@.edges.dom().contains(
                                        (#[trigger] node.edges@[j]).0,
                                    ) && self@.edges[node.edges@[j].0].other_node(last_node.0)
                                        == c[q.len() as int];
                                if j == k {
                                    let pos = q.len() as int;
                                    assert(next_node.0 == c[pos]);
                                    if pos < c.len() - 1 {
                                        assert forall|i: int| 0 <= i < q.len() implies q[i]
                                            != next_node.0 by {
                                            assert(c[i] != c[pos]);
                                        }
                                        assert(!seen);
                                    } else {
                                        assert(next_node == on_node);
                                    }
                                    let top = queue@.len() - 1;
                                    assert(is_prefix(node_ids(queue@[top]@), c));
                                } else {
                                    assert(k + 1 <= j);
                                }
                            }
                        }
                    }
                    k += 1;
                }
                proof {
                    lemma_children_weigh_less(len as nat, pushed);
                    assert forall|c: Seq<usize>| self@.is_cycle(on_node.0, c) implies covered(
                        queue@,
                        c,
                    ) by {
                        assert(!pending(self@, node.edges@, k as int, last_node.0, q, c));
                    }
                }
            } else {
                proof {
                    assert forall|c: Seq<usize>| self@.is_cycle(on_node.0, c) implies covered(
                        queue@,
                        c,
                    ) by {
                        assert(!pending(self@, node.edges@, 0, last_node.0, q, c));
                    }
                }
            }
        }
        proof {
            if self@.has_cycle(on_node.0) {
                let c = choose|c: Seq<usize>| self@.is_cycle(on_node.0, c);
                assert(covered(queue@, c));
            }
        }
        None
    }
}

} // verus!
