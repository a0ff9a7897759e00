//! Building the base map: ways that share nodes are cut into roads between
//! intersections.

use crate::geometry::{all_in_range, are_in_range, Coord, Polygon};
use crate::{
    copy_tags, tags_view, Building, Intersection, IntersectionID, MapModel, Road, RoadID, Tags,
};
use std::collections::HashMap;
use vstd::prelude::*;

verus! {

/// Why a base map could not be built.
#[derive(Clone, Copy, Debug, PartialEq, Eq, Structural)]
pub enum ScrapeError {
    /// A way references this node, and the node has no position.
    MissingNode(i64),
    /// This way has a node farther than `geometry::COORD_LIMIT` from the
    /// origin.
    OutOfRange(i64),
}

/// A tagged way of the source data: a list of node identifiers.
#[derive(Debug)]
pub struct Way {
    pub id: i64,
    pub node_ids: Vec<i64>,
    pub tags: Tags,
}

/// What a way holds.
pub struct WayView {
    pub id: i64,
    pub node_ids: Seq<i64>,
    pub tags: Seq<(Seq<char>, Seq<char>)>,
}

impl Way {
    pub open spec fn view(&self) -> WayView {
        WayView { id: self.id, node_ids: self.node_ids@, tags: tags_view(self.tags@) }
    }
}

/// What each way of a list holds.
pub open spec fn way_views(ways: Seq<Way>) -> Seq<WayView> {
    ways.map_values(|w: Way| w@)
}

/// Two different ways reference `node`.
pub open spec fn is_shared(ways: Seq<WayView>, node: i64) -> bool {
    exists|a: int, b: int|
        0 <= a < ways.len() && 0 <= b < ways.len() && a != b && (
        #[trigger] ways[a]).node_ids.contains(node) && (#[trigger] ways[b]).node_ids.contains(node)
}

/// A way is cut at its first node, at its last node, and at every node that
/// another way references too.
pub open spec fn is_split_point(ways: Seq<WayView>, w: int, idx: int) -> bool {
    idx == 0 || idx == ways[w].node_ids.len() - 1 || is_shared(ways, ways[w].node_ids[idx])
}

/// The last place before `idx` at which the way `w` is cut.
pub open spec fn previous_split(ways: Seq<WayView>, w: int, idx: int) -> int
    decreases idx,
{
    if idx <= 1 {
        0
    } else if is_split_point(ways, w, idx - 1) {
        idx - 1
    } else {
        previous_split(ways, w, idx - 1)
    }
}

/// A piece of a way between two neighbouring cuts: the way and the two
/// places in its node list.
pub struct Stretch {
    pub way: int,
    pub from: int,
    pub to: int,
}

/// The pieces of the way `w` that end within its first `upto` nodes: one for
/// each cut after the first node, reaching back to the cut before.
pub open spec fn stretches_of_way(ways: Seq<WayView>, w: int, upto: int) -> Seq<Stretch>
    decreases upto,
{
    if upto <= 1 {
        Seq::empty()
    } else {
        let rest = stretches_of_way(ways, w, upto - 1);
        if is_split_point(ways, w, upto - 1) {
            rest.push(Stretch { way: w, from: previous_split(ways, w, upto - 1), to: upto - 1 })
        } else {
            rest
        }
    }
}

/// The pieces of the first `n` ways, way after way.
pub open spec fn stretches(ways: Seq<WayView>, n: int) -> Seq<Stretch>
    decreases n,
{
    if n <= 0 {
        Seq::empty()
    } else {
        stretches(ways, n - 1) + stretches_of_way(ways, n - 1, ways[n - 1].node_ids.len() as int)
    }
}

/// The positions of the nodes `ids[from..=to]`.
pub open spec fn centerline(coords: Map<i64, Coord>, ids: Seq<i64>, from: int, to: int) -> Seq<
    Coord,
> {
    Seq::new((to - from + 1) as nat, |i: int| coords[ids[from + i]])
}

/// `road` is the `i`-th road, cut from a way along `stretch`: it runs from
/// the node at the one cut to the node at the other through the positions of
/// the nodes between them, carries the tags of the way, and is not measured
/// yet.
pub open spec fn is_road_of(
    road: Road,
    i: int,
    ways: Seq<WayView>,
    stretch: Stretch,
    coords: Map<i64, Coord>,
) -> bool {
    let way = ways[stretch.way];
    &&& 0 <= stretch.way < ways.len()
    &&& 0 <= stretch.from < stretch.to < way.node_ids.len()
    &&& road.id.0 == i
    &&& road.way == way.id
    &&& road.node1 == way.node_ids[stretch.from]
    &&& road.node2 == way.node_ids[stretch.to]
    &&& road.linestring@ == centerline(coords, way.node_ids, stretch.from, stretch.to)
    &&& tags_view(road.tags@) == way.tags
    &&& road.max_left_width.is_none()
    &&& road.max_right_width.is_none()
    &&& road.polygon.is_none()
}

/// The roads are the pieces of the ways, in order.
pub open spec fn cut_into(ways: Seq<WayView>, coords: Map<i64, Coord>, roads: Seq<Road>) -> bool {
    let pieces = stretches(ways, ways.len() as int);
    &&& roads.len() == pieces.len()
    &&& forall|i: int|
        0 <= i < roads.len() ==> is_road_of(#[trigger] roads[i], i, ways, pieces[i], coords)
}

/// The nodes at which roads end, each once, in the order in which the
/// roads, and of one road first its start and then its end, bring them up.
pub open spec fn junctions(roads: Seq<Road>) -> Seq<i64>
    decreases roads.len(),
{
    if roads.len() == 0 {
        Seq::empty()
    } else {
        let before = junctions(roads.drop_last());
        let with_start = if before.contains(roads.last().node1) {
            before
        } else {
            before.push(roads.last().node1)
        };
        if with_start.contains(roads.last().node2) {
            with_start
        } else {
            with_start.push(roads.last().node2)
        }
    }
}

/// The roads that end at `node`, in their order; a road that starts and
/// ends there is named twice.
pub open spec fn roads_at(roads: Seq<Road>, node: i64) -> Seq<RoadID>
    decreases roads.len(),
{
    if roads.len() == 0 {
        Seq::empty()
    } else {
        let before = roads_at(roads.drop_last(), node);
        let id = RoadID((roads.len() - 1) as usize);
        let with_start = if roads.last().node1 == node {
            before.push(id)
        } else {
            before
        };
        if roads.last().node2 == node {
            with_start.push(id)
        } else {
            with_start
        }
    }
}

/// There is one intersection for each junction, numbered in order, at the
/// position of its node and with the roads that end there; and every road
/// names the intersections of its two end nodes.
pub open spec fn joined_by(
    roads: Seq<Road>,
    coords: Map<i64, Coord>,
    intersections: Seq<Intersection>,
) -> bool {
    let found = junctions(roads);
    &&& intersections.len() == found.len()
    &&& forall|k: int|
        0 <= k < intersections.len() ==> {
            &&& (#[trigger] intersections[k]).id.0 == k
            &&& intersections[k].node == found[k]
            &&& intersections[k].point == coords[found[k]]
            &&& intersections[k].roads@ == roads_at(roads, found[k])
        }
    &&& forall|i: int|
        0 <= i < roads.len() ==> {
            &&& (#[trigger] roads[i]).src_i.0 < found.len()
            &&& roads[i].dst_i.0 < found.len()
            &&& found[roads[i].src_i.0 as int] == roads[i].node1
            &&& found[roads[i].dst_i.0 as int] == roads[i].node2
        }
}

/// Every node that a way references has a position.
pub open spec fn all_present(ways: Seq<WayView>, coords: Map<i64, Coord>) -> bool {
    forall|w: int, i: int|
        0 <= w < ways.len() && 0 <= i < ways[w].node_ids.len() ==> coords.contains_key(
            #[trigger] ways[w].node_ids[i],
        )
}

/// No junction is listed twice.
pub proof fn lemma_junctions_distinct(roads: Seq<Road>)
    ensures
        junctions(roads).no_duplicates(),
    decreases roads.len(),
{
    if roads.len() > 0 {
        lemma_junctions_distinct(roads.drop_last());
    }
}

/// The junctions are the end nodes of the roads.
pub proof fn lemma_junctions_are_ends(roads: Seq<Road>, node: i64)
    ensures
        junctions(roads).contains(node) <==> exists|i: int|
            0 <= i < roads.len() && ((#[trigger] roads[i]).node1 == node || roads[i].node2
                == node),
    decreases roads.len(),
{
    if roads.len() > 0 {
        let shorter = roads.drop_last();
        lemma_junctions_are_ends(shorter, node);
        let before = junctions(shorter);
        let with_start = if before.contains(roads.last().node1) {
            before
        } else {
            before.push(roads.last().node1)
        };
        let all = junctions(roads);
        if before.contains(node) {
            let k = choose|k: int| 0 <= k < before.len() && before[k] == node;
            assert(with_start[k] == node);
            assert(all[k] == node);
            let i = choose|i: int|
                0 <= i < shorter.len() && ((#[trigger] shorter[i]).node1 == node
                    || shorter[i].node2 == node);
            assert(roads[i] == shorter[i]);
        }
        if roads.last().node1 == node {
            if !before.contains(node) {
                assert(with_start[before.len() as int] == node);
            }
            let k = choose|k: int| 0 <= k < with_start.len() && with_start[k] == node;
            assert(all[k] == node);
            assert(roads[roads.len() - 1].node1 == node);
        }
        if roads.last().node2 == node {
            if !with_start.contains(node) {
                assert(all[with_start.len() as int] == node);
            }
            assert(roads[roads.len() - 1].node2 == node);
        }
        if all.contains(node) && !before.contains(node) {
            let k = choose|k: int| 0 <= k < all.len() && all[k] == node;
            if k < with_start.len() {
                assert(with_start[k] == node);
                assert(roads.last().node1 == node);
            } else {
                assert(roads.last().node2 == node);
            }
            assert(roads[roads.len() - 1] == roads.last());
        }
        if exists|i: int|
            0 <= i < roads.len() && ((#[trigger] roads[i]).node1 == node || roads[i].node2
                == node) {
            let i = choose|i: int|
                0 <= i < roads.len() && ((#[trigger] roads[i]).node1 == node || roads[i].node2
                    == node);
            if i < shorter.len() {
                assert(shorter[i] == roads[i]);
            }
        }
    }
}

/// No road ends at a node that is no junction.
proof fn lemma_roads_at_absent(roads: Seq<Road>, node: i64)
    requires
        !junctions(roads).contains(node),
    ensures
        roads_at(roads, node).len() == 0,
    decreases roads.len(),
{
    if roads.len() > 0 {
        lemma_junctions_are_ends(roads, node);
        lemma_junctions_are_ends(roads.drop_last(), node);
        let shorter = roads.drop_last();
        assert(roads[roads.len() - 1] == roads.last());
        if junctions(shorter).contains(node) {
            let i = choose|i: int|
                0 <= i < shorter.len() && ((#[trigger] shorter[i]).node1 == node
                    || shorter[i].node2 == node);
            assert(roads[i] == shorter[i]);
        }
        lemma_roads_at_absent(shorter, node);
    }
}

/// The node `node` occurs at the place `i` of the way `a`.
spec fn occurs(ways: Seq<WayView>, a: int, i: int, node: i64) -> bool {
    0 <= a < ways.len() && 0 <= i < ways[a].node_ids.len() && ways[a].node_ids[i] == node
}

/// `node` occurs in some way other than `first`, before the place `idx` of
/// the way `w`.
spec fn seen_elsewhere(ways: Seq<WayView>, w: int, idx: int, node: i64, first: int) -> bool {
    exists|a: int, i: int| #[trigger]
        occurs(ways, a, i, node) && a != first && (a < w || (a == w && i < idx))
}

/// `node` occurs before the place `idx` of the way `w`.
spec fn seen_before(ways: Seq<WayView>, w: int, idx: int, node: i64) -> bool {
    exists|a: int, i: int| #[trigger] occurs(ways, a, i, node) && (a < w || (a == w && i < idx))
}

/// What the tally knows of the nodes that occur before the place `idx` of
/// the way `w`: one way that references the node, and whether another does.
spec fn tally_ok(
    tally: Map<i64, (usize, bool)>,
    ways: Seq<WayView>,
    w: int,
    idx: int,
) -> bool {
    &&& forall|node: i64| #[trigger] tally.contains_key(node) <==> seen_before(ways, w, idx, node)
    &&& forall|node: i64| #[trigger]
        tally.contains_key(node) ==> {
            &&& tally[node].0 < ways.len()
            &&& ways[tally[node].0 as int].node_ids.contains(node)
            &&& tally[node].1 <==> seen_elsewhere(ways, w, idx, node, tally[node].0 as int)
        }
}

proof fn lemma_tally_step(
    tally: Map<i64, (usize, bool)>,
    next: Map<i64, (usize, bool)>,
    ways: Seq<WayView>,
    w: int,
    idx: int,
)
    requires
        0 <= w < ways.len(),
        0 <= idx < ways[w].node_ids.len(),
        tally_ok(tally, ways, w, idx),
        ({
            let node = ways[w].node_ids[idx];
            if tally.contains_key(node) {
                next == tally.insert(node, (tally[node].0, tally[node].1 || tally[node].0 != w))
            } else {
                next == tally.insert(node, (w as usize, false))
            }
        }),
        w <= usize::MAX,
    ensures
        tally_ok(next, ways, w, idx + 1),
{
    let here = ways[w].node_ids[idx];
    assert(occurs(ways, w, idx, here));
    assert forall|node: i64| #[trigger] next.contains_key(node) <==> seen_before(
        ways,
        w,
        idx + 1,
        node,
    ) by {
        if seen_before(ways, w, idx, node) {
            let (a, i) = choose|a: int, i: int| #[trigger]
                occurs(ways, a, i, node) && (a < w || (a == w && i < idx));
            assert(occurs(ways, a, i, node) && (a < w || (a == w && i < idx + 1)));
        }
        if seen_before(ways, w, idx + 1, node) {
            let (a, i) = choose|a: int, i: int| #[trigger]
                occurs(ways, a, i, node) && (a < w || (a == w && i < idx + 1));
            if a == w && i == idx {
                assert(node == here);
            } else {
                assert(occurs(ways, a, i, node) && (a < w || (a == w && i < idx)));
            }
        }
    }
    assert forall|node: i64| #[trigger] next.contains_key(node) implies {
        &&& next[node].0 < ways.len()
        &&& ways[next[node].0 as int].node_ids.contains(node)
        &&& next[node].1 <==> seen_elsewhere(ways, w, idx + 1, node, next[node].0 as int)
    } by {
        let first = next[node].0 as int;
        if tally.contains_key(node) {
            assert(first == tally[node].0);
            if seen_elsewhere(ways, w, idx, node, first) {
                let (a, i) = choose|a: int, i: int| #[trigger]
                    occurs(ways, a, i, node) && a != first && (a < w || (a == w && i < idx));
                assert(occurs(ways, a, i, node) && a != first && (a < w || (a == w && i < idx
                    + 1)));
            }
            if seen_elsewhere(ways, w, idx + 1, node, first) {
                let (a, i) = choose|a: int, i: int| #[trigger]
                    occurs(ways, a, i, node) && a != first && (a < w || (a == w && i < idx
                        + 1));
                if !(a == w && i == idx) {
                    assert(occurs(ways, a, i, node) && a != first && (a < w || (a == w && i
                        < idx)));
                }
            }
            if node == here && first != w {
                assert(occurs(ways, w, idx, node) && w != first && (w < w || (w == w && idx
                    < idx + 1)));
            }
        } else {
            assert(node == here);
            assert(first == w);
            assert(ways[w].node_ids[idx] == node);
            if seen_elsewhere(ways, w, idx + 1, node, first) {
                let (a, i) = choose|a: int, i: int| #[trigger]
                    occurs(ways, a, i, node) && a != first && (a < w || (a == w && i < idx
                        + 1));
                assert(occurs(ways, a, i, node) && (a < w || (a == w && i < idx)));
                assert(seen_before(ways, w, idx, node));
            }
        }
    }
}

proof fn lemma_tally_next_way(tally: Map<i64, (usize, bool)>, ways: Seq<WayView>, w: int)
    requires
        0 <= w < ways.len(),
        tally_ok(tally, ways, w, ways[w].node_ids.len() as int),
    ensures
        tally_ok(tally, ways, w + 1, 0),
{
    let n = ways[w].node_ids.len() as int;
    assert forall|node: i64| seen_before(ways, w, n, node) <==> seen_before(
        ways,
        w + 1,
        0,
        node,
    ) by {
        if seen_before(ways, w, n, node) {
            let (a, i) = choose|a: int, i: int| #[trigger]
                occurs(ways, a, i, node) && (a < w || (a == w && i < n));
            assert(occurs(ways, a, i, node) && (a < w + 1 || (a == w + 1 && i < 0)));
        }
        if seen_before(ways, w + 1, 0, node) {
            let (a, i) = choose|a: int, i: int| #[trigger]
                occurs(ways, a, i, node) && (a < w + 1 || (a == w + 1 && i < 0));
            assert(occurs(ways, a, i, node) && (a < w || (a == w && i < n)));
        }
    }
    assert forall|node: i64, first: int| seen_elsewhere(ways, w, n, node, first)
        <==> seen_elsewhere(ways, w + 1, 0, node, first) by {
        if seen_elsewhere(ways, w, n, node, first) {
            let (a, i) = choose|a: int, i: int| #[trigger]
                occurs(ways, a, i, node) && a != first && (a < w || (a == w && i < n));
            assert(occurs(ways, a, i, node) && a != first && (a < w + 1 || (a == w + 1 && i
                < 0)));
        }
        if seen_elsewhere(ways, w + 1, 0, node, first) {
            let (a, i) = choose|a: int, i: int| #[trigger]
                occurs(ways, a, i, node) && a != first && (a < w + 1 || (a == w + 1 && i < 0));
            assert(occurs(ways, a, i, node) && a != first && (a < w || (a == w && i < n)));
        }
    }
}

proof fn lemma_tally_done(tally: Map<i64, (usize, bool)>, ways: Seq<WayView>, node: i64)
    requires
        tally_ok(tally, ways, ways.len() as int, 0),
    ensures
        is_shared(ways, node) <==> (tally.contains_key(node) && tally[node].1),
{
    let n = ways.len() as int;
    if is_shared(ways, node) {
        let (a, b) = choose|a: int, b: int|
            0 <= a < ways.len() && 0 <= b < ways.len() && a != b && (
            #[trigger] ways[a]).node_ids.contains(node) && (
            #[trigger] ways[b]).node_ids.contains(node);
        let i = choose|i: int| 0 <= i < ways[a].node_ids.len() && ways[a].node_ids[i] == node;
        let j = choose|j: int| 0 <= j < ways[b].node_ids.len() && ways[b].node_ids[j] == node;
        assert(occurs(ways, a, i, node) && (a < n || (a == n && i < 0)));
        assert(tally.contains_key(node));
        let first = tally[node].0 as int;
        if a != first {
            assert(occurs(ways, a, i, node) && a != first && (a < n || (a == n && i < 0)));
        } else {
            assert(occurs(ways, b, j, node) && b != first && (b < n || (b == n && j < 0)));
        }
    }
    if tally.contains_key(node) && tally[node].1 {
        let first = tally[node].0 as int;
        let (a, i) = choose|a: int, i: int| #[trigger]
            occurs(ways, a, i, node) && a != first && (a < n || (a == n && i < 0));
        assert(ways[a].node_ids.contains(node));
        assert(ways[first].node_ids.contains(node));
    }
}

/// For every node that a way references: one way that references it, and
/// whether another way does too.
fn tally_nodes(ways: &Vec<Way>) -> (tally: HashMap<i64, (usize, bool)>)
    ensures
        forall|node: i64| #[trigger]
            is_shared(way_views(ways@), node) <==> (tally@.contains_key(node)
                && tally@[node].1),
{
    let ghost views = way_views(ways@);
    let mut tally: HashMap<i64, (usize, bool)> = HashMap::new();
    let mut w: usize = 0;
    assert(tally_ok(tally@, views, 0, 0)) by {
        assert forall|node: i64| !seen_before(views, 0, 0, node) by {}
    }
    while w < ways.len()
        invariant
            w <= ways@.len(),
            views == way_views(ways@),
            tally_ok(tally@, views, w as int, 0),
        decreases ways@.len() - w,
    {
        let way = &ways[w];
        assert(views[w as int].node_ids == way.node_ids@);
        let mut idx: usize = 0;
        while idx < way.node_ids.len()
            invariant
                w < ways@.len(),
                idx <= way.node_ids@.len(),
                views == way_views(ways@),
                views[w as int].node_ids == way.node_ids@,
                tally_ok(tally@, views, w as int, idx as int),
            decreases way.node_ids@.len() - idx,
        {
            let node: i64 = way.node_ids[idx];
            let ghost before = tally@;
            let mut entry: (usize, bool) = (w, false);
            match tally.get(&node) {
                Some(known) => {
                    entry = (known.0, known.1 || known.0 != w);
                },
                None => {},
            }
            tally.insert(node, entry);
            proof {
                lemma_tally_step(before, tally@, views, w as int, idx as int);
            }
            idx += 1;
        }
        proof {
            lemma_tally_next_way(tally@, views, w as int);
        }
        w += 1;
    }
    proof {
        assert forall|node: i64| #[trigger]
            is_shared(views, node) <==> (tally@.contains_key(node) && tally@[node].1) by {
            lemma_tally_done(tally@, views, node);
        }
    }
    tally
}

/// The intersections made so far are those of the junctions `found`, and
/// the index finds each by its node.
spec fn junctions_ok(
    index: Map<i64, usize>,
    intersections: Seq<Intersection>,
    found: Seq<i64>,
    coords: Map<i64, Coord>,
) -> bool {
    &&& found.no_duplicates()
    &&& intersections.len() == found.len()
    &&& forall|n: i64| #[trigger] index.contains_key(n) <==> found.contains(n)
    &&& forall|n: i64| #[trigger]
        index.contains_key(n) ==> index[n] < found.len() && found[index[n] as int] == n
    &&& forall|k: int|
        0 <= k < found.len() ==> (#[trigger] intersections[k]).id.0 == k && intersections[k].node
            == found[k] && intersections[k].point == coords[found[k]]
}

/// `found` with `node` added at its end, unless it holds `node` already.
spec fn with_junction(found: Seq<i64>, node: i64) -> Seq<i64> {
    if found.contains(node) {
        found
    } else {
        found.push(node)
    }
}

/// Notes at the intersection of `node` that `road` ends there, making the
/// intersection first where `node` is new.
fn touch(
    intersections: &mut Vec<Intersection>,
    index: &mut HashMap<i64, usize>,
    node: i64,
    point: Coord,
    road: RoadID,
    Ghost(found): Ghost<Seq<i64>>,
    Ghost(coords): Ghost<Map<i64, Coord>>,
) -> (id: IntersectionID)
    requires
        junctions_ok(old(index)@, old(intersections)@, found, coords),
        point == coords[node],
    ensures
        junctions_ok(final(index)@, final(intersections)@, with_junction(found, node), coords),
        id.0 < with_junction(found, node).len(),
        with_junction(found, node)[id.0 as int] == node,
        forall|k: int|
            0 <= k < found.len() && k != id.0 ==> (#[trigger] final(intersections)@[k]).roads@
                == old(intersections)@[k].roads@,
        final(intersections)@[id.0 as int].roads@ == (if found.contains(node) {
            old(intersections)@[id.0 as int].roads@
        } else {
            Seq::<RoadID>::empty()
        }).push(road),
{
    let ghost before = intersections@;
    let mut known: Option<usize> = None;
    match index.get(&node) {
        Some(k) => {
            known = Some(*k);
        },
        None => {},
    }
    match known {
        Some(k) => {
            intersections[k].roads.push(road);
            proof {
                assert forall|j: int| 0 <= j < found.len() implies (
                #[trigger] intersections@[j]).id.0 == j && intersections@[j].node == found[j]
                    && intersections@[j].point == coords[found[j]] by {
                    assert(before[j].id.0 == j);
                }
            }
            IntersectionID(k)
        },
        None => {
            let k: usize = intersections.len();
            let mut roads: Vec<RoadID> = Vec::new();
            roads.push(road);
            intersections.push(Intersection { id: IntersectionID(k), node, point, roads });
            index.insert(node, k);
            proof {
                let after = found.push(node);
                assert forall|n: i64| #[trigger] index@.contains_key(n) <==> after.contains(n) by {
                    if found.contains(n) {
                        let j = choose|j: int| 0 <= j < found.len() && found[j] == n;
                        assert(after[j] == n);
                    }
                    if n == node {
                        assert(after[found.len() as int] == n);
                    }
                    if after.contains(n) {
                        let j = choose|j: int| 0 <= j < after.len() && after[j] == n;
                        if j < found.len() {
                            assert(found[j] == n);
                        }
                    }
                }
                assert forall|j: int| 0 <= j < after.len() implies (
                #[trigger] intersections@[j]).id.0 == j && intersections@[j].node == after[j]
                    && intersections@[j].point == coords[after[j]] by {
                    if j < found.len() {
                        assert(intersections@[j] == before[j]);
                    }
                }
                assert(roads@ =~= Seq::<RoadID>::empty().push(road));
            }
            IntersectionID(k)
        },
    }
}

/// The intersections and the index are those of the roads made so far.
spec fn links_ok(
    index: Map<i64, usize>,
    intersections: Seq<Intersection>,
    roads: Seq<Road>,
    coords: Map<i64, Coord>,
) -> bool {
    &&& junctions_ok(index, intersections, junctions(roads), coords)
    &&& joined_by(roads, coords, intersections)
}

/// Makes the next road: from `node1` to `node2` of `way` along `pts`.
fn emit(
    roads: &mut Vec<Road>,
    intersections: &mut Vec<Intersection>,
    index: &mut HashMap<i64, usize>,
    way: &Way,
    node1: i64,
    node2: i64,
    pts: Vec<Coord>,
    Ghost(coords): Ghost<Map<i64, Coord>>,
)
    requires
        links_ok(old(index)@, old(intersections)@, old(roads)@, coords),
        pts@.len() >= 2,
        pts@[0] == coords[node1],
        pts@.last() == coords[node2],
    ensures
        links_ok(final(index)@, final(intersections)@, final(roads)@, coords),
        final(roads)@.len() == old(roads)@.len() + 1,
        forall|i: int| 0 <= i < old(roads)@.len() ==> #[trigger] final(roads)@[i] == old(roads)@[i],
        ({
            let road = final(roads)@.last();
            &&& road.id.0 == old(roads)@.len()
            &&& road.way == way.id
            &&& road.node1 == node1
            &&& road.node2 == node2
            &&& road.linestring@ == pts@
            &&& tags_view(road.tags@) == way@.tags
            &&& road.max_left_width.is_none()
            &&& road.max_right_width.is_none()
            &&& road.polygon.is_none()
        }),
{
    let ghost roads0 = roads@;
    let ghost ints0 = intersections@;
    let ghost found0 = junctions(roads0);
    let ghost found1 = with_junction(found0, node1);
    let id = RoadID(roads.len());
    let src_i = touch(intersections, index, node1, pts[0], id, Ghost(found0), Ghost(coords));
    let ghost ints1 = intersections@;
    let dst_i = touch(
        intersections,
        index,
        node2,
        pts[pts.len() - 1],
        id,
        Ghost(found1),
        Ghost(coords),
    );
    let ghost found2 = with_junction(found1, node2);
    let tags = copy_tags(&way.tags);
    roads.push(
        Road {
            id,
            way: way.id,
            node1,
            node2,
            src_i,
            dst_i,
            linestring: pts,
            tags,
            max_left_width: None,
            max_right_width: None,
            polygon: None,
        },
    );
    proof {
        let all = roads@;
        assert(all.drop_last() =~= roads0);
        assert(all.last().node1 == node1 && all.last().node2 == node2);
        assert(junctions(all) == found2);
        assert forall|k: int| 0 <= k < intersections@.len() implies (
        #[trigger] intersections@[k]).roads@ == roads_at(all, found2[k]) by {
            let n = found2[k];
            let prior = roads_at(roads0, n);
            if k < found0.len() {
                assert(found0[k] == n);
                assert(ints0[k].roads@ == prior);
                assert(found1[k] == n);
            } else {
                if found0.contains(n) {
                    let j = choose|j: int| 0 <= j < found0.len() && found0[j] == n;
                    assert(found1[j] == n);
                    assert(found2[j] == n);
                }
                lemma_roads_at_absent(roads0, n);
                assert(prior =~= Seq::<RoadID>::empty());
            }
            // after the start node was noted
            let mid = if k < ints1.len() {
                ints1[k].roads@
            } else {
                Seq::<RoadID>::empty()
            };
            if k < found1.len() {
                if k == src_i.0 {
                    assert(n == node1);
                    assert(mid == prior.push(id));
                } else {
                    assert(n != node1);
                    assert(mid == prior);
                }
            } else {
                assert(n == node2);
                if node1 == n {
                    assert(found1[src_i.0 as int] == n);
                }
            }
            if k == dst_i.0 {
                assert(n == node2);
            } else {
                assert(n != node2);
            }
        }
        assert forall|i: int| 0 <= i < all.len() implies {
            &&& (#[trigger] all[i]).src_i.0 < found2.len()
            &&& all[i].dst_i.0 < found2.len()
            &&& found2[all[i].src_i.0 as int] == all[i].node1
            &&& found2[all[i].dst_i.0 as int] == all[i].node2
        } by {
            if i < roads0.len() {
                assert(all[i] == roads0[i]);
                let a = roads0[i].src_i.0 as int;
                let b = roads0[i].dst_i.0 as int;
                assert(found1[a] == found0[a]);
                assert(found2[a] == found0[a]);
                assert(found1[b] == found0[b]);
                assert(found2[b] == found0[b]);
            } else {
                assert(found2[src_i.0 as int] == found1[src_i.0 as int]);
            }
        }
    }
}

/// The roads made so far are the pieces `pieces`.
spec fn pieces_ok(
    ways: Seq<WayView>,
    coords: Map<i64, Coord>,
    roads: Seq<Road>,
    pieces: Seq<Stretch>,
) -> bool {
    &&& roads.len() == pieces.len()
    &&& forall|i: int|
        0 <= i < roads.len() ==> is_road_of(#[trigger] roads[i], i, ways, pieces[i], coords)
}

proof fn lemma_pieces_push(
    ways: Seq<WayView>,
    coords: Map<i64, Coord>,
    roads0: Seq<Road>,
    roads1: Seq<Road>,
    before: Seq<Stretch>,
    piece: Stretch,
)
    requires
        pieces_ok(ways, coords, roads0, before),
        roads1.len() == roads0.len() + 1,
        forall|i: int| 0 <= i < roads0.len() ==> #[trigger] roads1[i] == roads0[i],
        is_road_of(roads1[roads0.len() as int], roads0.len() as int, ways, piece, coords),
    ensures
        pieces_ok(ways, coords, roads1, before.push(piece)),
{
    let after = before.push(piece);
    assert forall|i: int| 0 <= i < roads1.len() implies is_road_of(
        #[trigger] roads1[i],
        i,
        ways,
        after[i],
        coords,
    ) by {
        if i < roads0.len() {
            assert(roads1[i] == roads0[i]);
            assert(after[i] == before[i]);
            assert(is_road_of(roads0[i], i, ways, before[i], coords));
        }
    }
}

/// Cuts the ways into roads and finds the intersections at which the roads
/// end. A way is cut at its two ends and at every node that another way
/// references too. `coords` gives the position of each node; a way that
/// references a node without a position makes the whole fail.
pub fn split_ways(ways: &Vec<Way>, coords: &HashMap<i64, Coord>) -> (result: Result<
    (Vec<Road>, Vec<Intersection>),
    ScrapeError,
>)
    ensures
        result.is_ok() <==> all_present(way_views(ways@), coords@),
        match result {
            Ok((roads, intersections)) => cut_into(way_views(ways@), coords@, roads@)
                && joined_by(roads@, coords@, intersections@),
            Err(ScrapeError::MissingNode(node)) => !coords@.contains_key(node) && exists|
                w: int,
                i: int,
            |
                0 <= w < ways@.len() && 0 <= i < ways@[w].node_ids@.len() && (
                #[trigger] ways@[w].node_ids@[i]) == node,
            Err(ScrapeError::OutOfRange(_)) => false,
        },
{
    let ghost views = way_views(ways@);
    let tally = tally_nodes(ways);
    let mut roads: Vec<Road> = Vec::new();
    let mut intersections: Vec<Intersection> = Vec::new();
    let mut index: HashMap<i64, usize> = HashMap::new();
    let mut w: usize = 0;
    while w < ways.len()
        invariant
            w <= ways@.len(),
            views == way_views(ways@),
            forall|node: i64| #[trigger]
                is_shared(views, node) <==> (tally@.contains_key(node) && tally@[node].1),
            pieces_ok(views, coords@, roads@, stretches(views, w as int)),
            links_ok(index@, intersections@, roads@, coords@),
            forall|a: int, i: int|
                0 <= a < w && 0 <= i < views[a].node_ids.len() ==> coords@.contains_key(
                    #[trigger] views[a].node_ids[i],
                ),
        decreases ways@.len() - w,
    {
        let way = &ways[w];
        let ghost ids = way.node_ids@;
        assert(views[w as int] == way@);
        let num_nodes: usize = way.node_ids.len();
        let mut node1: i64 = 0;
        let mut pts: Vec<Coord> = Vec::new();
        let mut idx: usize = 0;
        let ghost base = stretches(views, w as int);
        while idx < num_nodes
            invariant
                w < ways@.len(),
                views == way_views(ways@),
                views[w as int] == way@,
                ids == way.node_ids@,
                num_nodes == ids.len(),
                idx <= num_nodes,
                base == stretches(views, w as int),
                forall|node: i64| #[trigger]
                    is_shared(views, node) <==> (tally@.contains_key(node) && tally@[node].1),
                pieces_ok(
                    views,
                    coords@,
                    roads@,
                    base + stretches_of_way(views, w as int, idx as int),
                ),
                links_ok(index@, intersections@, roads@, coords@),
                forall|a: int, i: int|
                    0 <= a < w && 0 <= i < views[a].node_ids.len() ==> coords@.contains_key(
                        #[trigger] views[a].node_ids[i],
                    ),
                forall|i: int| 0 <= i < idx ==> coords@.contains_key(#[trigger] ids[i]),
                idx == 0 ==> pts@.len() == 0,
                idx > 0 ==> {
                    let prev = previous_split(views, w as int, idx as int);
                    &&& 0 <= prev < idx
                    &&& node1 == ids[prev]
                    &&& pts@ == centerline(coords@, ids, prev, idx - 1)
                },
            decreases num_nodes - idx,
        {
            let node: i64 = way.node_ids[idx];
            let mut pt = Coord { x: 0, y: 0 };
            match coords.get(&node) {
                Some(found) => {
                    pt = *found;
                },
                None => {
                    assert(ways@[w as int].node_ids@[idx as int] == node);
                    assert(!all_present(views, coords@)) by {
                        assert(views[w as int].node_ids[idx as int] == node);
                    }
                    return Err(ScrapeError::MissingNode(node));
                },
            }
            let ghost prev = if idx == 0 {
                0
            } else {
                previous_split(views, w as int, idx as int)
            };
            if idx == 0 {
                node1 = node;
            }
            pts.push(pt);
            assert(pts@ =~= centerline(coords@, ids, prev, idx as int));
            let mut shared = false;
            match tally.get(&node) {
                Some(entry) => {
                    shared = entry.1;
                },
                None => {},
            }
            assert(shared == is_shared(views, node));
            let is_endpoint = idx == 0 || idx == num_nodes - 1 || shared;
            assert(is_endpoint == is_split_point(views, w as int, idx as int));
            let ghost before = base + stretches_of_way(views, w as int, idx as int);
            let ghost roads0 = roads@;
            if is_endpoint && pts.len() > 1 {
                let mut line: Vec<Coord> = Vec::new();
                line.push(pt);
                let ghost whole = pts@;
                core::mem::swap(&mut pts, &mut line);
                assert(line@ == whole);
                emit(
                    &mut roads,
                    &mut intersections,
                    &mut index,
                    way,
                    node1,
                    node,
                    line,
                    Ghost(coords@),
                );
                node1 = node;
                proof {
                    let piece = Stretch { way: w as int, from: prev, to: idx as int };
                    let after = base + stretches_of_way(views, w as int, idx + 1);
                    assert(after =~= before.push(piece));
                    assert(pts@ =~= centerline(coords@, ids, idx as int, idx as int));
                    let last = roads@[roads0.len() as int];
                    assert(last == roads@.last());
                    assert(is_road_of(last, roads0.len() as int, views, piece, coords@));
                    lemma_pieces_push(views, coords@, roads0, roads@, before, piece);
                    assert(pieces_ok(views, coords@, roads@, after));
                }
            } else {
                proof {
                    let after = base + stretches_of_way(views, w as int, idx + 1);
                    assert(after =~= before);
                }
            }
            idx += 1;
        }
        w += 1;
    }
    proof {
        assert(views.len() == ways@.len());
        assert(all_present(views, coords@));
        assert(pieces_ok(views, coords@, roads@, stretches(views, views.len() as int)));
        assert(cut_into(views, coords@, roads@));
    }
    Ok((roads, intersections))
}

/// An element of the source data, with the position of a node already on
/// the local plane.
#[derive(Debug)]
pub enum Element {
    Node { id: i64, pt: Coord },
    Way(Way),
    /// A relation, or anything else that the map does not use.
    Other,
}

/// The tag list holds the key `key`.
pub open spec fn has_tag(tags: Seq<(Seq<char>, Seq<char>)>, key: Seq<char>) -> bool {
    exists|i: int| 0 <= i < tags.len() && (#[trigger] tags[i]).0 == key
}

/// A way with the key `highway` is a road to be cut.
pub open spec fn is_highway(way: WayView) -> bool {
    has_tag(way.tags, "highway"@)
}

/// A way with the key `building` and without the key `highway` outlines a
/// building.
pub open spec fn is_building(way: WayView) -> bool {
    !is_highway(way) && has_tag(way.tags, "building"@)
}

/// The positions of the nodes among the first `upto` elements; of two nodes
/// with one identifier the later counts.
pub open spec fn node_table(elements: Seq<Element>, upto: int) -> Map<i64, Coord>
    decreases upto,
{
    if upto <= 0 {
        Map::empty()
    } else {
        match elements[upto - 1] {
            Element::Node { id, pt } => node_table(elements, upto - 1).insert(id, pt),
            _ => node_table(elements, upto - 1),
        }
    }
}

/// The highways among the first `upto` elements, in order.
pub open spec fn highways(elements: Seq<Element>, upto: int) -> Seq<WayView>
    decreases upto,
{
    if upto <= 0 {
        Seq::empty()
    } else {
        match elements[upto - 1] {
            Element::Way(way) => if is_highway(way@) {
                highways(elements, upto - 1).push(way@)
            } else {
                highways(elements, upto - 1)
            },
            _ => highways(elements, upto - 1),
        }
    }
}

/// The places, among the first `upto` elements, of the ways that outline
/// buildings.
pub open spec fn building_places(elements: Seq<Element>, upto: int) -> Seq<int>
    decreases upto,
{
    if upto <= 0 {
        Seq::empty()
    } else {
        match elements[upto - 1] {
            Element::Way(way) => if is_building(way@) {
                building_places(elements, upto - 1).push(upto - 1)
            } else {
                building_places(elements, upto - 1)
            },
            _ => building_places(elements, upto - 1),
        }
    }
}

/// The way at the place `j` of the elements; an empty way where there is
/// none.
pub open spec fn way_at(elements: Seq<Element>, j: int) -> WayView {
    match elements[j] {
        Element::Way(way) => way@,
        _ => WayView { id: 0, node_ids: Seq::empty(), tags: Seq::empty() },
    }
}

/// The outline of the building at the place `j` of the elements: the
/// positions of the nodes of its way, as the nodes before it give them.
pub open spec fn outline(elements: Seq<Element>, j: int) -> Seq<Coord> {
    way_at(elements, j).node_ids.map_values(|id: i64| node_table(elements, j)[id])
}

/// `building` is the building of the way at the place `j` of the elements.
pub open spec fn is_building_of(building: Building, elements: Seq<Element>, j: int) -> bool {
    &&& building.id == way_at(elements, j).id
    &&& building.polygon@ == outline(elements, j)
    &&& tags_view(building.tags@) == way_at(elements, j).tags
}

/// Every node of every building has a position when the building comes up.
pub open spec fn buildings_resolve(elements: Seq<Element>, upto: int) -> bool {
    forall|b: int, i: int|
        0 <= b < building_places(elements, upto).len() && 0 <= i < way_at(
            elements,
            building_places(elements, upto)[b],
        ).node_ids.len() ==> node_table(
            elements,
            building_places(elements, upto)[b],
        ).contains_key(
            #[trigger] way_at(elements, building_places(elements, upto)[b]).node_ids[i],
        )
}

/// Every node that a building or a highway references has a position.
pub open spec fn resolves(elements: Seq<Element>) -> bool {
    &&& buildings_resolve(elements, elements.len() as int)
    &&& all_present(
        highways(elements, elements.len() as int),
        node_table(elements, elements.len() as int),
    )
}

/// Every node of a highway and every corner of a building lies within
/// `geometry::COORD_LIMIT` of the origin.
pub open spec fn in_range(elements: Seq<Element>) -> bool {
    let ways = highways(elements, elements.len() as int);
    let table = node_table(elements, elements.len() as int);
    let places = building_places(elements, elements.len() as int);
    &&& forall|w: int, i: int|
        0 <= w < ways.len() && 0 <= i < ways[w].node_ids.len() ==> table[
        #[trigger] ways[w].node_ids[i]].in_range()
    &&& forall|b: int| 0 <= b < places.len() ==> all_in_range(outline(elements, #[trigger] places[b]))
}

/// A building or a highway references `node`, and `node` has no position
/// for it: none before the building, or none at all for the highway.
pub open spec fn is_missing(elements: Seq<Element>, node: i64) -> bool {
    let ways = highways(elements, elements.len() as int);
    let table = node_table(elements, elements.len() as int);
    let places = building_places(elements, elements.len() as int);
    ||| exists|b: int|
        0 <= b < places.len() && way_at(elements, #[trigger] places[b]).node_ids.contains(node)
            && !node_table(elements, places[b]).contains_key(node)
    ||| !table.contains_key(node) && exists|w: int|
        0 <= w < ways.len() && (#[trigger] ways[w]).node_ids.contains(node)
}

/// The way `way`, highway or building, has a node out of range.
pub open spec fn is_far(elements: Seq<Element>, way: i64) -> bool {
    let ways = highways(elements, elements.len() as int);
    let table = node_table(elements, elements.len() as int);
    let places = building_places(elements, elements.len() as int);
    ||| exists|w: int, i: int|
        0 <= w < ways.len() && 0 <= i < ways[w].node_ids.len() && ways[w].id == way && !table[
        #[trigger] ways[w].node_ids[i]].in_range()
    ||| exists|b: int|
        0 <= b < places.len() && way_at(elements, #[trigger] places[b]).id == way && !all_in_range(
            outline(elements, places[b]),
        )
}

/// `map` is the base map of the elements: its roads are the highways cut at
/// their junctions, its intersections are the junctions, its buildings are
/// the ways that outline buildings, its graph mirrors the roads, and
/// nothing is measured or undone yet.
pub open spec fn is_map_of(map: MapModel, elements: Seq<Element>) -> bool {
    let ways = highways(elements, elements.len() as int);
    let table = node_table(elements, elements.len() as int);
    let places = building_places(elements, elements.len() as int);
    &&& map.wf()
    &&& cut_into(ways, table, map.roads_view())
    &&& joined_by(map.roads_view(), table, map.intersections_view())
    &&& map.buildings_view().len() == places.len()
    &&& forall|b: int|
        0 <= b < places.len() ==> is_building_of(
            #[trigger] map.buildings_view()[b],
            elements,
            places[b],
        )
    &&& crate::graph::mirrors(map.graph_view(), map.roads_view(), map.intersections_view())
    &&& map.undo_views().len() == 0
}

/// Tells whether the tag list holds the key `key`.
pub fn has(tags: &Tags, key: &str) -> (found: bool)
    ensures
        found == has_tag(tags_view(tags@), key@),
{
    let wanted: String = key.to_owned();
    let mut i: usize = 0;
    while i < tags.len()
        invariant
            i <= tags@.len(),
            wanted@ == key@,
            forall|k: int| 0 <= k < i ==> (#[trigger] tags_view(tags@)[k]).0 != key@,
        decreases tags@.len() - i,
    {
        if tags[i].0 == wanted {
            assert(tags_view(tags@)[i as int].0 == key@);
            return true;
        }
        i += 1;
    }
    false
}

/// A copy of `way`.
fn copy_way(way: &Way) -> (copy: Way)
    ensures
        copy@ == way@,
{
    Way { id: way.id, node_ids: way.node_ids.clone(), tags: copy_tags(&way.tags) }
}

/// The outline of a building from the positions of its nodes; the first of
/// its nodes without a position where there is one.
fn trace_outline(way: &Way, table: &HashMap<i64, Coord>) -> (result: Result<Vec<Coord>, i64>)
    ensures
        match result {
            Ok(ring) => ring@ == way.node_ids@.map_values(|id: i64| table@[id]) && forall|
                i: int,
            | 0 <= i < way.node_ids@.len() ==> table@.contains_key(#[trigger] way.node_ids@[i]),
            Err(node) => !table@.contains_key(node) && way.node_ids@.contains(node),
        },
{
    let mut ring: Vec<Coord> = Vec::new();
    let mut i: usize = 0;
    while i < way.node_ids.len()
        invariant
            i <= way.node_ids@.len(),
            ring@.len() == i,
            forall|k: int| 0 <= k < i ==> #[trigger] ring@[k] == table@[way.node_ids@[k]],
            forall|k: int| 0 <= k < i ==> table@.contains_key(#[trigger] way.node_ids@[k]),
        decreases way.node_ids@.len() - i,
    {
        let node: i64 = way.node_ids[i];
        match table.get(&node) {
            Some(pt) => {
                ring.push(*pt);
            },
            None => {
                assert(way.node_ids@[i as int] == node);
                return Err(node);
            },
        }
        i += 1;
    }
    assert(ring@ =~= way.node_ids@.map_values(|id: i64| table@[id]));
    Ok(ring)
}

/// A way that outlines a building has its place among the building places.
proof fn lemma_building_place_listed(elements: Seq<Element>, upto: int, j: int)
    requires
        0 <= j < upto <= elements.len(),
        elements[j] is Way,
        is_building(way_at(elements, j)),
    ensures
        exists|b: int|
            0 <= b < building_places(elements, upto).len() && #[trigger] building_places(
                elements,
                upto,
            )[b] == j,
    decreases upto,
{
    if j == upto - 1 {
        let places = building_places(elements, upto);
        assert(places[places.len() - 1] == j);
    } else {
        lemma_building_place_listed(elements, upto - 1, j);
        let shorter = building_places(elements, upto - 1);
        let b = choose|b: int| 0 <= b < shorter.len() && #[trigger] shorter[b] == j;
        assert(building_places(elements, upto)[b] == j);
    }
}

/// What the first walk over the elements gathers: the positions of the
/// nodes, the highways, and the buildings.
struct Gathered {
    table: HashMap<i64, Coord>,
    ways: Vec<Way>,
    buildings: Vec<Building>,
}

/// The gathered data are those of the first `upto` elements.
spec fn gathered_ok(g: Gathered, elements: Seq<Element>, upto: int) -> bool {
    &&& g.table@ == node_table(elements, upto)
    &&& way_views(g.ways@) == highways(elements, upto)
    &&& g.buildings@.len() == building_places(elements, upto).len()
    &&& forall|b: int|
        0 <= b < g.buildings@.len() ==> is_building_of(
            #[trigger] g.buildings@[b],
            elements,
            building_places(elements, upto)[b],
        )
    &&& buildings_resolve(elements, upto)
}

/// Walks over the elements once: notes the position of each node, keeps the
/// highways, and traces the outline of each building from the nodes that
/// came before it. Fails with the node where a building references a node
/// that has no position yet.
fn gather(elements: &Vec<Element>) -> (result: Result<Gathered, i64>)
    ensures
        match result {
            Ok(g) => gathered_ok(g, elements@, elements@.len() as int),
            Err(node) => !buildings_resolve(elements@, elements@.len() as int) && is_missing(
                elements@,
                node,
            ),
        },
{
    let mut g = Gathered { table: HashMap::new(), ways: Vec::new(), buildings: Vec::new() };
    let mut j: usize = 0;
    assert(g.table@ =~= node_table(elements@, 0));
    assert(way_views(g.ways@) =~= highways(elements@, 0));
    while j < elements.len()
        invariant
            j <= elements@.len(),
            gathered_ok(g, elements@, j as int),
        decreases elements@.len() - j,
    {
        let ghost before = g;
        let ghost places = building_places(elements@, j as int);
        let ghost next = building_places(elements@, j + 1);
        match &elements[j] {
            Element::Node { id, pt } => {
                g.table.insert(*id, *pt);
                assert(g.table@ =~= node_table(elements@, j + 1));
            },
            Element::Way(way) => {
                if has(&way.tags, "highway") {
                    let copy = copy_way(way);
                    g.ways.push(copy);
                    assert(way_views(g.ways@) =~= highways(elements@, j + 1));
                } else if has(&way.tags, "building") {
                    match trace_outline(way, &g.table) {
                        Ok(ring) => {
                            let tags = copy_tags(&way.tags);
                            g.buildings.push(
                                Building { id: way.id, polygon: Polygon { exterior: ring }, tags },
                            );
                            proof {
                                assert(next == places.push(j as int));
                                assert(is_building_of(
                                    g.buildings@[places.len() as int],
                                    elements@,
                                    j as int,
                                ));
                            }
                        },
                        Err(node) => {
                            proof {
                                let n = elements@.len() as int;
                                lemma_building_place_listed(elements@, n, j as int);
                                let all = building_places(elements@, n);
                                let b = choose|b: int| 0 <= b < all.len() && #[trigger] all[b] == j;
                                let i = choose|i: int|
                                    0 <= i < way.node_ids@.len() && way.node_ids@[i] == node;
                                assert(way_at(elements@, all[b]).node_ids[i] == node);
                                assert(!node_table(elements@, all[b]).contains_key(
                                    way_at(elements@, all[b]).node_ids[i],
                                ));
                                assert(way_at(elements@, all[b]).node_ids.contains(node));
                            }
                            return Err(node);
                        },
                    }
                }
            },
            Element::Other => {},
        }
        proof {
            assert forall|b: int| 0 <= b < g.buildings@.len() implies is_building_of(
                #[trigger] g.buildings@[b],
                elements@,
                next[b],
            ) by {
                if b < before.buildings@.len() {
                    assert(g.buildings@[b] == before.buildings@[b]);
                    assert(next[b] == places[b]);
                }
            }
            assert forall|b: int, i: int|
                0 <= b < next.len() && 0 <= i < way_at(elements@, next[b]).node_ids.len() implies node_table(
                elements@,
                next[b],
            ).contains_key(#[trigger] way_at(elements@, next[b]).node_ids[i]) by {
                if b < places.len() {
                    assert(next[b] == places[b]);
                    assert(node_table(elements@, places[b]).contains_key(
                        way_at(elements@, places[b]).node_ids[i],
                    ));
                }
            }
        }
        j += 1;
    }
    Ok(g)
}

/// The way, highway or building, that has a position out of range, where
/// there is one.
fn find_out_of_range(
    ways: &Vec<Way>,
    table: &HashMap<i64, Coord>,
    buildings: &Vec<Building>,
) -> (found: Option<i64>)
    requires
        all_present(way_views(ways@), table@),
    ensures
        match found {
            Some(id) => (exists|w: int, i: int|
                0 <= w < ways@.len() && 0 <= i < ways@[w].node_ids@.len() && ways@[w].id == id
                    && !table@[#[trigger] ways@[w].node_ids@[i]].in_range()) || (exists|b: int|
                0 <= b < buildings@.len() && (#[trigger] buildings@[b]).id == id && !all_in_range(
                    buildings@[b].polygon@,
                )),
            None => (forall|w: int, i: int|
                0 <= w < ways@.len() && 0 <= i < ways@[w].node_ids@.len() ==> table@[
                #[trigger] ways@[w].node_ids@[i]].in_range()) && (forall|b: int|
                0 <= b < buildings@.len() ==> all_in_range((#[trigger] buildings@[b]).polygon@)),
        },
{
    let mut w: usize = 0;
    while w < ways.len()
        invariant
            w <= ways@.len(),
            all_present(way_views(ways@), table@),
            forall|a: int, i: int|
                0 <= a < w && 0 <= i < ways@[a].node_ids@.len() ==> table@[
                #[trigger] ways@[a].node_ids@[i]].in_range(),
        decreases ways@.len() - w,
    {
        let way = &ways[w];
        let mut i: usize = 0;
        while i < way.node_ids.len()
            invariant
                w < ways@.len(),
                way == &ways@[w as int],
                i <= way.node_ids@.len(),
                all_present(way_views(ways@), table@),
                forall|k: int| 0 <= k < i ==> table@[#[trigger] way.node_ids@[k]].in_range(),
            decreases way.node_ids@.len() - i,
        {
            let node: i64 = way.node_ids[i];
            assert(way_views(ways@)[w as int].node_ids[i as int] == node);
            assert(table@.contains_key(node));
            match table.get(&node) {
                Some(pt) => {
                    if !pt.is_in_range() {
                        assert(!table@[ways@[w as int].node_ids@[i as int]].in_range());
                        return Some(way.id);
                    }
                },
                None => {},
            }
            i += 1;
        }
        w += 1;
    }
    let mut b: usize = 0;
    while b < buildings.len()
        invariant
            b <= buildings@.len(),
            forall|k: int| 0 <= k < b ==> all_in_range((#[trigger] buildings@[k]).polygon@),
        decreases buildings@.len() - b,
    {
        if !are_in_range(&buildings[b].polygon.exterior) {
            return Some(buildings[b].id);
        }
        b += 1;
    }
    None
}

/// Builds the base map from the elements of the source data: highways are
/// cut into roads at their junctions, ways tagged as buildings become
/// buildings, and the topology graph mirrors the roads. Fails where a way
/// references a node without a position, and where a position is out of
/// range.
pub fn scrape_osm(elements: &Vec<Element>) -> (result: Result<MapModel, ScrapeError>)
    ensures
        match result {
            Ok(map) => resolves(elements@) && in_range(elements@) && is_map_of(map, elements@),
            Err(ScrapeError::MissingNode(node)) => !resolves(elements@) && is_missing(
                elements@,
                node,
            ),
            Err(ScrapeError::OutOfRange(way)) => resolves(elements@) && !in_range(elements@)
                && is_far(elements@, way),
        },
{
    let ghost n = elements@.len() as int;
    let g = match gather(elements) {
        Ok(g) => g,
        Err(node) => {
            return Err(ScrapeError::MissingNode(node));
        },
    };
    let Gathered { table, ways, buildings } = g;
    let ghost views = way_views(ways@);
    let (roads, intersections) = match split_ways(&ways, &table) {
        Ok(pair) => pair,
        Err(e) => {
            proof {
                match e {
                    ScrapeError::MissingNode(node) => {
                        let (w, i) = choose|w: int, i: int|
                            0 <= w < ways@.len() && 0 <= i < ways@[w].node_ids@.len() && (
                            #[trigger] ways@[w].node_ids@[i]) == node;
                        assert(views[w].node_ids[i] == node);
                        assert(views[w].node_ids.contains(node));
                    },
                    ScrapeError::OutOfRange(_) => {},
                }
            }
            return Err(e);
        },
    };
    proof {
        assert forall|b: int| 0 <= b < buildings@.len() implies (
        #[trigger] buildings@[b]).polygon@ == outline(elements@, building_places(elements@, n)[b]) by {
            assert(is_building_of(buildings@[b], elements@, building_places(elements@, n)[b]));
        }
        assert forall|w: int| 0 <= w < ways@.len() implies (#[trigger] ways@[w]).node_ids@
            == views[w].node_ids by {}
    }
    match find_out_of_range(&ways, &table, &buildings) {
        Some(way) => {
            proof {
                let places = building_places(elements@, n);
                if exists|w: int, i: int|
                    0 <= w < ways@.len() && 0 <= i < ways@[w].node_ids@.len() && ways@[w].id == way
                        && !table@[#[trigger] ways@[w].node_ids@[i]].in_range() {
                    let (w, i) = choose|w: int, i: int|
                        0 <= w < ways@.len() && 0 <= i < ways@[w].node_ids@.len() && ways@[w].id
                            == way && !table@[#[trigger] ways@[w].node_ids@[i]].in_range();
                    assert(views[w].id == way);
                    assert(!table@[views[w].node_ids[i]].in_range());
                } else {
                    let b = choose|b: int|
                        0 <= b < buildings@.len() && (#[trigger] buildings@[b]).id == way
                            && !all_in_range(buildings@[b].polygon@);
                    assert(is_building_of(buildings@[b], elements@, places[b]));
                    assert(way_at(elements@, places[b]).id == way);
                }
                assert(is_far(elements@, way));
                if in_range(elements@) {
                    assert forall|w: int, i: int|
                        0 <= w < ways@.len() && 0 <= i < ways@[w].node_ids@.len() implies table@[
                    #[trigger] ways@[w].node_ids@[i]].in_range() by {
                        assert(views[w].node_ids[i] == ways@[w].node_ids@[i]);
                    }
                    assert forall|b: int| 0 <= b < buildings@.len() implies all_in_range(
                        (#[trigger] buildings@[b]).polygon@,
                    ) by {
                        let places = building_places(elements@, n);
                        assert(all_in_range(outline(elements@, places[b])));
                    }
                }
            }
            return Err(ScrapeError::OutOfRange(way));
        },
        None => {},
    }
    proof {
        let places = building_places(elements@, n);
        assert forall|w: int, i: int|
            0 <= w < views.len() && 0 <= i < views[w].node_ids.len() implies table@[
        #[trigger] views[w].node_ids[i]].in_range() by {
            assert(ways@[w].node_ids@[i] == views[w].node_ids[i]);
        }
        assert forall|b: int| 0 <= b < places.len() implies all_in_range(
            outline(elements@, #[trigger] places[b]),
        ) by {
            assert(all_in_range(buildings@[b].polygon@));
        }
        let pieces = stretches(views, views.len() as int);
        assert forall|k: int| 0 <= k < roads@.len() implies {
            &&& (#[trigger] roads@[k]).id.0 == k
            &&& roads@[k].src_i.0 < intersections@.len()
            &&& roads@[k].dst_i.0 < intersections@.len()
            &&& roads@[k].linestring@.len() >= 2
            &&& all_in_range(roads@[k].linestring@)
        } by {
            assert(is_road_of(roads@[k], k, views, pieces[k], table@));
            let ids = views[pieces[k].way].node_ids;
            assert forall|i: int| 0 <= i < roads@[k].linestring@.len() implies (
            #[trigger] roads@[k].linestring@[i]).in_range() by {
                assert(roads@[k].linestring@[i] == table@[ids[pieces[k].from + i]]);
            }
        }
    }
    let map = MapModel::new(roads, intersections, buildings);
    Ok(map)
}

} // verus!
