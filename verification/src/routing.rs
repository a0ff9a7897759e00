//! Shortest walks over the topology graph, weighted by the length of the
//! centerlines.

use crate::graph::{EdgeID, Graph, GraphView, NodeID};
use crate::math::{lemma_path_length_bounds, linestring_length, path_length};
use vstd::prelude::*;

verus! {

/// A walk over the graph: its nodes in order, the edges between them, and
/// the sum of the weights of the edges.
#[derive(Debug)]
pub struct Route {
    pub nodes: Vec<NodeID>,
    pub edges: Vec<EdgeID>,
    pub cost: u128,
}

/// The handles that a list of edge handles names.
pub open spec fn edge_ids(edges: Seq<EdgeID>) -> Seq<usize> {
    edges.map_values(|e: EdgeID| e.0)
}

/// The handles that a list of node handles names.
pub open spec fn route_nodes(nodes: Seq<NodeID>) -> Seq<usize> {
    nodes.map_values(|n: NodeID| n.0)
}

/// The weight of an edge: the length of its centerline, and the greatest
/// `u64` where that is greater.
pub open spec fn edge_weight(view: GraphView, e: usize) -> int {
    if path_length(view.edges[e].linestring) > u64::MAX {
        u64::MAX as int
    } else {
        path_length(view.edges[e].linestring)
    }
}

/// The `i`-th edge of the walk is in the graph, is not `banned`, and joins
/// the `i`-th node of the walk to the next.
pub open spec fn step_ok(
    view: GraphView,
    nodes: Seq<usize>,
    edges: Seq<usize>,
    banned: Option<usize>,
    i: int,
) -> bool {
    &&& view.edges.dom().contains(edges[i])
    &&& view.edges[edges[i]].joins(nodes[i], nodes[i + 1])
    &&& banned != Some(edges[i])
}

/// `nodes` and `edges` are a walk from `from` to `to` that uses the edge
/// `banned` nowhere.
pub open spec fn is_walk(
    view: GraphView,
    from: usize,
    to: usize,
    banned: Option<usize>,
    nodes: Seq<usize>,
    edges: Seq<usize>,
) -> bool {
    &&& nodes.len() == edges.len() + 1
    &&& nodes[0] == from
    &&& nodes.last() == to
    &&& view.nodes.dom().contains(from)
    &&& forall|i: int| 0 <= i < edges.len() ==> #[trigger] step_ok(view, nodes, edges, banned, i)
}

/// The sum of the weights of `edges`.
pub open spec fn walk_weight(view: GraphView, edges: Seq<usize>) -> int
    decreases edges.len(),
{
    if edges.len() == 0 {
        0
    } else {
        walk_weight(view, edges.drop_last()) + edge_weight(view, edges.last())
    }
}

/// No walk from `from` to `to` that avoids `banned` weighs less than `cost`.
pub open spec fn no_cheaper(
    view: GraphView,
    from: usize,
    to: usize,
    banned: Option<usize>,
    cost: int,
) -> bool {
    forall|nodes: Seq<usize>, edges: Seq<usize>| #[trigger]
        is_walk(view, from, to, banned, nodes, edges) ==> cost <= walk_weight(view, edges)
}

/// Some walk leads from `from` to `to` and avoids `banned`.
pub open spec fn reachable(view: GraphView, from: usize, to: usize, banned: Option<usize>) -> bool {
    exists|nodes: Seq<usize>, edges: Seq<usize>| is_walk(view, from, to, banned, nodes, edges)
}

/// `route` is a walk from `from` to `to` that avoids `banned`, with its
/// weight as its cost.
pub open spec fn is_route(
    view: GraphView,
    from: usize,
    to: usize,
    banned: Option<usize>,
    route: Route,
) -> bool {
    &&& is_walk(view, from, to, banned, route_nodes(route.nodes@), edge_ids(route.edges@))
    &&& route.cost == walk_weight(view, edge_ids(route.edges@))
}

/// Weights are between zero and the greatest `u64`.
pub proof fn lemma_edge_weight_bounds(view: GraphView, e: usize)
    ensures
        0 <= edge_weight(view, e) <= u64::MAX,
{
    lemma_path_length_bounds(view.edges[e].linestring);
}

/// A walk weighs at least as much as any of its beginnings, and at most the
/// greatest `u64` for each of its edges.
pub proof fn lemma_walk_weight_prefix(view: GraphView, edges: Seq<usize>, upto: int)
    requires
        0 <= upto <= edges.len(),
    ensures
        0 <= walk_weight(view, edges.subrange(0, upto)) <= walk_weight(view, edges),
        walk_weight(view, edges) <= edges.len() * u64::MAX,
    decreases edges.len(),
{
    if edges.len() == 0 {
        assert(edges.subrange(0, upto) =~= edges);
    } else {
        lemma_edge_weight_bounds(view, edges.last());
        let shorter = edges.drop_last();
        assert(edges.len() * u64::MAX == shorter.len() * u64::MAX + u64::MAX) by (nonlinear_arith)
            requires
                edges.len() == shorter.len() + 1,
        ;
        if upto == edges.len() {
            assert(edges.subrange(0, upto) =~= edges);
            lemma_walk_weight_prefix(view, shorter, 0);
        } else {
            lemma_walk_weight_prefix(view, shorter, upto);
            assert(shorter.subrange(0, upto) =~= edges.subrange(0, upto));
        }
    }
}

/// The beginning of a walk is a walk to the node at which it stops.
pub proof fn lemma_walk_prefix(
    view: GraphView,
    from: usize,
    to: usize,
    banned: Option<usize>,
    nodes: Seq<usize>,
    edges: Seq<usize>,
    upto: int,
)
    requires
        is_walk(view, from, to, banned, nodes, edges),
        0 <= upto <= edges.len(),
    ensures
        is_walk(
            view,
            from,
            nodes[upto],
            banned,
            nodes.subrange(0, upto + 1),
            edges.subrange(0, upto),
        ),
{
    let ns = nodes.subrange(0, upto + 1);
    let es = edges.subrange(0, upto);
    assert forall|i: int| 0 <= i < es.len() implies #[trigger] step_ok(view, ns, es, banned, i) by {
        assert(step_ok(view, nodes, edges, banned, i));
    }
}

/// A walk with one more step is a walk, and weighs as much more as the edge
/// of the step.
pub proof fn lemma_walk_push(
    view: GraphView,
    from: usize,
    to: usize,
    banned: Option<usize>,
    nodes: Seq<usize>,
    edges: Seq<usize>,
    next: usize,
    e: usize,
)
    requires
        is_walk(view, from, to, banned, nodes, edges),
        view.edges.dom().contains(e),
        view.edges[e].joins(to, next),
        banned != Some(e),
    ensures
        is_walk(view, from, next, banned, nodes.push(next), edges.push(e)),
        walk_weight(view, edges.push(e)) == walk_weight(view, edges) + edge_weight(view, e),
{
    let ns = nodes.push(next);
    let es = edges.push(e);
    assert forall|i: int| 0 <= i < es.len() implies #[trigger] step_ok(view, ns, es, banned, i) by {
        if i < edges.len() {
            assert(step_ok(view, nodes, edges, banned, i));
        }
    }
    assert(es.drop_last() =~= edges);
}

/// Every node of a walk is a node of the graph.
pub proof fn lemma_walk_nodes_exist(
    view: GraphView,
    from: usize,
    to: usize,
    banned: Option<usize>,
    nodes: Seq<usize>,
    edges: Seq<usize>,
    i: int,
)
    requires
        view.well_formed(),
        is_walk(view, from, to, banned, nodes, edges),
        0 <= i < nodes.len(),
    ensures
        view.nodes.dom().contains(nodes[i]),
        nodes[i] < view.next_node_id,
{
    if i > 0 {
        assert(step_ok(view, nodes, edges, banned, i - 1));
    }
}

/// The number of flags that are set.
pub open spec fn count_set(flags: Seq<bool>) -> nat
    decreases flags.len(),
{
    if flags.len() == 0 {
        0
    } else {
        count_set(flags.drop_last()) + (if flags.last() {
            1nat
        } else {
            0nat
        })
    }
}

/// No more flags are set than there are, and where as many are set as there
/// are, all are set.
pub proof fn lemma_count_set_bound(flags: Seq<bool>)
    ensures
        count_set(flags) <= flags.len(),
        count_set(flags) == flags.len() ==> forall|i: int| 0 <= i < flags.len() ==> flags[i],
    decreases flags.len(),
{
    if flags.len() > 0 {
        lemma_count_set_bound(flags.drop_last());
        if count_set(flags) == flags.len() {
            assert forall|i: int| 0 <= i < flags.len() implies flags[i] by {
                if i < flags.len() - 1 {
                    assert(flags.drop_last()[i] == flags[i]);
                }
            }
        }
    }
}

/// Setting a flag that was not set makes one more flag set.
pub proof fn lemma_count_set_update(flags: Seq<bool>, i: int)
    requires
        0 <= i < flags.len(),
        !flags[i],
    ensures
        count_set(flags.update(i, true)) == count_set(flags) + 1,
    decreases flags.len(),
{
    let after = flags.update(i, true);
    if i == flags.len() - 1 {
        assert(after.drop_last() =~= flags.drop_last());
    } else {
        lemma_count_set_update(flags.drop_last(), i);
        assert(after.drop_last() =~= flags.drop_last().update(i, true));
    }
}

/// Where no flag is set, none is.
pub proof fn lemma_count_set_none(flags: Seq<bool>)
    requires
        count_set(flags) == 0,
    ensures
        forall|i: int| 0 <= i < flags.len() ==> !flags[i],
    decreases flags.len(),
{
    if flags.len() > 0 {
        lemma_count_set_none(flags.drop_last());
        assert forall|i: int| 0 <= i < flags.len() implies !flags[i] by {
            if i < flags.len() - 1 {
                assert(flags.drop_last()[i] == flags[i]);
            }
        }
    }
}

/// The cost of the best walk found to the node `v`; zero where none is
/// found.
spec fn cost_of(best: Seq<Option<Route>>, v: int) -> int {
    match best[v] {
        Some(r) => r.cost as int,
        None => 0,
    }
}

/// What is noted for the node `v` is a walk to it of at most `hops` edges.
spec fn entry_ok(
    view: GraphView,
    from: usize,
    banned: Option<usize>,
    best: Seq<Option<Route>>,
    hops: int,
    v: int,
) -> bool {
    match best[v] {
        Some(r) => is_route(view, from, v as usize, banned, r) && r.edges@.len() <= hops,
        None => true,
    }
}

/// Where the node `v` is settled, no walk to it weighs less than the one
/// noted for it.
spec fn settled_ok(
    view: GraphView,
    from: usize,
    banned: Option<usize>,
    best: Seq<Option<Route>>,
    done: Seq<bool>,
    v: int,
) -> bool {
    done[v] ==> best[v].is_some() && no_cheaper(view, from, v as usize, banned, cost_of(best, v))
}

/// Where the node `u` is settled and the edge `e` leaves it, a walk is
/// noted for the other end of `e` that weighs no more than the walk to `u`
/// and `e` together.
spec fn relaxed_ok(
    view: GraphView,
    banned: Option<usize>,
    best: Seq<Option<Route>>,
    done: Seq<bool>,
    u: int,
    e: usize,
) -> bool {
    done[u] && view.edges.dom().contains(e) && view.edges[e].touches(u as usize) && banned
        != Some(e) ==> {
        let v = view.edges[e].other_node(u as usize) as int;
        best[v].is_some() && cost_of(best, v) <= cost_of(best, u) + edge_weight(view, e)
    }
}

/// The settled nodes have walks that weigh at most `level`, the others, as
/// far as a walk is noted for them, walks that weigh at least `level`.
spec fn level_ok(best: Seq<Option<Route>>, done: Seq<bool>, level: int, v: int) -> bool {
    if done[v] {
        best[v].is_some() && cost_of(best, v) <= level
    } else {
        best[v].is_some() ==> level <= cost_of(best, v)
    }
}

/// The state of the search: `rounds` nodes are settled, and all edges of
/// the settled nodes but those of `skip` are followed.
spec fn search_ok(
    view: GraphView,
    from: usize,
    banned: Option<usize>,
    best: Seq<Option<Route>>,
    done: Seq<bool>,
    rounds: int,
    level: int,
    skip: int,
) -> bool {
    &&& view.well_formed()
    &&& view.next_node_id <= usize::MAX
    &&& best.len() == view.next_node_id
    &&& done.len() == view.next_node_id
    &&& from < best.len()
    &&& best[from as int].is_some()
    &&& cost_of(best, from as int) == 0
    &&& rounds == count_set(done)
    &&& 0 <= level
    &&& rounds > 0 ==> done[from as int]
    &&& rounds == 0 ==> forall|v: int|
        0 <= v < best.len() && v != from ==> (#[trigger] best[v]).is_none()
    &&& forall|v: int| 0 <= v < best.len() ==> #[trigger] entry_ok(view, from, banned, best, rounds, v)
    &&& forall|v: int|
        0 <= v < best.len() ==> #[trigger] settled_ok(view, from, banned, best, done, v)
    &&& forall|u: int, e: usize|
        0 <= u < best.len() && u != skip ==> #[trigger] relaxed_ok(view, banned, best, done, u, e)
    &&& forall|v: int| 0 <= v < best.len() ==> #[trigger] level_ok(best, done, level, v)
}

/// On a walk from a settled node to one that is not, some step leaves the
/// settled nodes.
proof fn lemma_first_exit(done: Seq<bool>, nodes: Seq<usize>) -> (i: int)
    requires
        nodes.len() >= 1,
        forall|k: int| 0 <= k < nodes.len() ==> (#[trigger] nodes[k]) < done.len(),
        done[nodes[0] as int],
        !done[nodes.last() as int],
    ensures
        0 <= i < nodes.len() - 1,
        done[nodes[i] as int],
        !done[nodes[i + 1] as int],
    decreases nodes.len(),
{
    let k = nodes.len() - 2;
    if done[nodes[k] as int] {
        k
    } else {
        let shorter = nodes.drop_last();
        assert forall|j: int| 0 <= j < shorter.len() implies (#[trigger] shorter[j])
            < done.len() by {
            assert(shorter[j] == nodes[j]);
        }
        lemma_first_exit(done, shorter)
    }
}

/// On a walk from the start to a node that is not settled, some node that
/// is not settled has a walk noted that weighs no more than the walk.
proof fn lemma_walk_meets_frontier(
    view: GraphView,
    from: usize,
    to: usize,
    banned: Option<usize>,
    best: Seq<Option<Route>>,
    done: Seq<bool>,
    rounds: int,
    level: int,
    nodes: Seq<usize>,
    edges: Seq<usize>,
) -> (y: int)
    requires
        search_ok(view, from, banned, best, done, rounds, level, -1),
        is_walk(view, from, to, banned, nodes, edges),
        to < done.len(),
        !done[to as int],
    ensures
        0 <= y < best.len(),
        !done[y],
        best[y].is_some(),
        cost_of(best, y) <= walk_weight(view, edges),
{
    lemma_walk_weight_prefix(view, edges, 0);
    if !done[from as int] {
        from as int
    } else {
        assert forall|k: int| 0 <= k < nodes.len() implies (#[trigger] nodes[k]) < done.len() by {
            lemma_walk_nodes_exist(view, from, to, banned, nodes, edges, k);
        }
        let i = lemma_first_exit(done, nodes);
        let x = nodes[i] as int;
        let y = nodes[i + 1] as int;
        let e = edges[i];
        assert(step_ok(view, nodes, edges, banned, i));
        assert(relaxed_ok(view, banned, best, done, x, e));
        assert(view.edges[e].other_node(x as usize) == y);
        assert(settled_ok(view, from, banned, best, done, x));
        lemma_walk_prefix(view, from, to, banned, nodes, edges, i);
        let before = edges.subrange(0, i);
        assert(cost_of(best, x) <= walk_weight(view, before));
        let upto = edges.subrange(0, i + 1);
        assert(upto.drop_last() =~= before);
        assert(upto.last() == e);
        lemma_walk_weight_prefix(view, edges, i + 1);
        y
    }
}

/// The nearest of the nodes that are not settled has the lightest walk
/// noted that there is to it.
proof fn lemma_nearest_is_optimal(
    view: GraphView,
    from: usize,
    banned: Option<usize>,
    best: Seq<Option<Route>>,
    done: Seq<bool>,
    rounds: int,
    level: int,
    u: int,
)
    requires
        search_ok(view, from, banned, best, done, rounds, level, -1),
        0 <= u < best.len(),
        !done[u],
        best[u].is_some(),
        forall|v: int|
            0 <= v < best.len() && !done[v] && (#[trigger] best[v]).is_some() ==> cost_of(best, u)
                <= cost_of(best, v),
    ensures
        no_cheaper(view, from, u as usize, banned, cost_of(best, u)),
{
    assert forall|nodes: Seq<usize>, edges: Seq<usize>| #[trigger]
        is_walk(view, from, u as usize, banned, nodes, edges) implies cost_of(best, u)
        <= walk_weight(view, edges) by {
        let y = lemma_walk_meets_frontier(
            view,
            from,
            u as usize,
            banned,
            best,
            done,
            rounds,
            level,
            nodes,
            edges,
        );
        assert(best[y].is_some());
    }
}

/// Where no node is left that is not settled and has a walk noted, no walk
/// leads to a node that is not settled.
proof fn lemma_nothing_left(
    view: GraphView,
    from: usize,
    to: usize,
    banned: Option<usize>,
    best: Seq<Option<Route>>,
    done: Seq<bool>,
    rounds: int,
    level: int,
)
    requires
        search_ok(view, from, banned, best, done, rounds, level, -1),
        to < done.len(),
        !done[to as int],
        forall|v: int| 0 <= v < best.len() && !done[v] ==> (#[trigger] best[v]).is_none(),
    ensures
        !reachable(view, from, to, banned),
{
    if reachable(view, from, to, banned) {
        let (nodes, edges) = choose|nodes: Seq<usize>, edges: Seq<usize>|
            is_walk(view, from, to, banned, nodes, edges);
        let y = lemma_walk_meets_frontier(
            view,
            from,
            to,
            banned,
            best,
            done,
            rounds,
            level,
            nodes,
            edges,
        );
        assert(best[y].is_none());
    }
}

/// Settling the nearest of the nodes that are not settled keeps the search
/// in order; its edges are yet to be followed.
proof fn lemma_settle(
    view: GraphView,
    from: usize,
    banned: Option<usize>,
    best: Seq<Option<Route>>,
    done: Seq<bool>,
    rounds: int,
    level: int,
    u: int,
)
    requires
        search_ok(view, from, banned, best, done, rounds, level, -1),
        0 <= u < best.len(),
        !done[u],
        best[u].is_some(),
        forall|v: int|
            0 <= v < best.len() && !done[v] && (#[trigger] best[v]).is_some() ==> cost_of(best, u)
                <= cost_of(best, v),
    ensures
        search_ok(
            view,
            from,
            banned,
            best,
            done.update(u, true),
            rounds + 1,
            cost_of(best, u),
            u,
        ),
        no_cheaper(view, from, u as usize, banned, cost_of(best, u)),
        is_route(view, from, u as usize, banned, best[u].unwrap()),
        best[u].unwrap().edges@.len() <= rounds,
        cost_of(best, u) <= rounds * u64::MAX,
        rounds < best.len(),
{
    let after = done.update(u, true);
    let cu = cost_of(best, u);
    lemma_nearest_is_optimal(view, from, banned, best, done, rounds, level, u);
    lemma_count_set_update(done, u);
    lemma_count_set_bound(done);
    assert(entry_ok(view, from, banned, best, rounds, u));
    lemma_walk_weight_prefix(view, edge_ids(best[u].unwrap().edges@), 0);
    assert(cu <= rounds * u64::MAX) by (nonlinear_arith)
        requires
            cu <= best[u].unwrap().edges@.len() * u64::MAX,
            best[u].unwrap().edges@.len() <= rounds,
    ;
    if rounds == 0 {
        lemma_count_set_none(done);
        assert(u == from);
    }
    assert(level_ok(best, done, level, u));
    assert forall|v: int| 0 <= v < best.len() implies #[trigger] entry_ok(
        view,
        from,
        banned,
        best,
        rounds + 1,
        v,
    ) by {
        assert(entry_ok(view, from, banned, best, rounds, v));
    }
    assert forall|v: int| 0 <= v < best.len() implies #[trigger] settled_ok(
        view,
        from,
        banned,
        best,
        after,
        v,
    ) by {
        assert(settled_ok(view, from, banned, best, done, v));
    }
    assert forall|w: int, e: usize| 0 <= w < best.len() && w != u implies #[trigger] relaxed_ok(
        view,
        banned,
        best,
        after,
        w,
        e,
    ) by {
        assert(relaxed_ok(view, banned, best, done, w, e));
    }
    assert forall|v: int| 0 <= v < best.len() implies #[trigger] level_ok(best, after, cu, v) by {
        assert(level_ok(best, done, level, v));
    }
    if count_set(done) == done.len() {
        assert(done[u]);
    }
}

/// Noting a lighter walk for a node that is not settled keeps the search in
/// order, and what was followed stays followed.
proof fn lemma_improve(
    view: GraphView,
    from: usize,
    banned: Option<usize>,
    best: Seq<Option<Route>>,
    done: Seq<bool>,
    rounds: int,
    level: int,
    u: int,
    v: int,
    route: Route,
)
    requires
        search_ok(view, from, banned, best, done, rounds, level, u),
        rounds > 0,
        0 <= v < best.len(),
        !done[v],
        is_route(view, from, v as usize, banned, route),
        route.edges@.len() <= rounds,
        level <= route.cost,
        best[v].is_some() ==> route.cost < cost_of(best, v),
    ensures
        search_ok(view, from, banned, best.update(v, Some(route)), done, rounds, level, u),
        forall|w: int, e: usize|
            0 <= w < best.len() && relaxed_ok(view, banned, best, done, w, e) ==> #[trigger] relaxed_ok(
                view,
                banned,
                best.update(v, Some(route)),
                done,
                w,
                e,
            ),
{
    let after = best.update(v, Some(route));
    assert forall|w: int, e: usize|
        0 <= w < best.len() && relaxed_ok(view, banned, best, done, w, e) implies #[trigger] relaxed_ok(
        view,
        banned,
        after,
        done,
        w,
        e,
    ) by {
        if done[w] && view.edges.dom().contains(e) && view.edges[e].touches(w as usize) && banned
            != Some(e) {
            let x = view.edges[e].other_node(w as usize) as int;
            assert(view.nodes.dom().contains(x as usize));
            assert(cost_of(after, w) == cost_of(best, w));
            if x == v {
                assert(cost_of(after, x) <= cost_of(best, x));
            } else {
                assert(cost_of(after, x) == cost_of(best, x));
            }
        }
    }
    assert forall|x: int| 0 <= x < after.len() implies #[trigger] entry_ok(
        view,
        from,
        banned,
        after,
        rounds,
        x,
    ) by {
        assert(entry_ok(view, from, banned, best, rounds, x));
    }
    assert forall|x: int| 0 <= x < after.len() implies #[trigger] settled_ok(
        view,
        from,
        banned,
        after,
        done,
        x,
    ) by {
        assert(settled_ok(view, from, banned, best, done, x));
        assert(x != v ==> cost_of(after, x) == cost_of(best, x));
    }
    assert forall|w: int, e: usize| 0 <= w < after.len() && w != u implies #[trigger] relaxed_ok(
        view,
        banned,
        after,
        done,
        w,
        e,
    ) by {
        assert(relaxed_ok(view, banned, best, done, w, e));
    }
    assert forall|x: int| 0 <= x < after.len() implies #[trigger] level_ok(after, done, level, x) by {
        assert(level_ok(best, done, level, x));
        assert(x != v ==> cost_of(after, x) == cost_of(best, x));
    }
}

/// Once every edge of the node `u` is followed, the search is in order
/// throughout.
proof fn lemma_all_followed(
    view: GraphView,
    from: usize,
    banned: Option<usize>,
    best: Seq<Option<Route>>,
    done: Seq<bool>,
    rounds: int,
    level: int,
    u: int,
    listed: Seq<EdgeID>,
)
    requires
        search_ok(view, from, banned, best, done, rounds, level, u),
        0 <= u < best.len(),
        view.nodes.dom().contains(u as usize),
        forall|e: usize| view.nodes[u as usize].edges.contains(e) <==> listed.contains(EdgeID(e)),
        forall|j: int|
            0 <= j < listed.len() ==> relaxed_ok(view, banned, best, done, u, (#[trigger] listed[j]).0),
    ensures
        search_ok(view, from, banned, best, done, rounds, level, -1),
{
    assert forall|w: int, e: usize| 0 <= w < best.len() implies #[trigger] relaxed_ok(
        view,
        banned,
        best,
        done,
        w,
        e,
    ) by {
        if w == u {
            if view.edges.dom().contains(e) && view.edges[e].touches(u as usize) {
                assert(view.nodes[u as usize].edges.contains(e));
                assert(listed.contains(EdgeID(e)));
                let j = choose|j: int| 0 <= j < listed.len() && listed[j] == EdgeID(e);
                assert(relaxed_ok(view, banned, best, done, u, listed[j].0));
            }
        } else {
            assert(relaxed_ok(view, banned, best, done, w, e));
        }
    }
}

/// The nearest of the nodes that are not settled and have a walk noted.
fn nearest(best: &Vec<Option<Route>>, done: &Vec<bool>) -> (found: Option<usize>)
    requires
        best@.len() == done@.len(),
    ensures
        match found {
            Some(u) => u < best@.len() && !done@[u as int] && best@[u as int].is_some() && forall|
                v: int,
            |
                0 <= v < best@.len() && !done@[v] && (#[trigger] best@[v]).is_some() ==> cost_of(
                    best@,
                    u as int,
                ) <= cost_of(best@, v),
            None => forall|v: int|
                0 <= v < best@.len() && !done@[v] ==> (#[trigger] best@[v]).is_none(),
        },
{
    let mut found: Option<usize> = None;
    let mut least: u128 = 0;
    let mut v: usize = 0;
    while v < best.len()
        invariant
            v <= best@.len(),
            best@.len() == done@.len(),
            match found {
                Some(u) => u < v && !done@[u as int] && best@[u as int].is_some() && least
                    == cost_of(best@, u as int) && forall|x: int|
                    0 <= x < v && !done@[x] && (#[trigger] best@[x]).is_some() ==> least <= cost_of(
                        best@,
                        x,
                    ),
                None => forall|x: int| 0 <= x < v && !done@[x] ==> (#[trigger] best@[x]).is_none(),
            },
        decreases best@.len() - v,
    {
        if !done[v] {
            match &best[v] {
                Some(route) => {
                    if found.is_none() || route.cost < least {
                        found = Some(v);
                        least = route.cost;
                    }
                },
                None => {},
            }
        }
        v += 1;
    }
    found
}

/// The walk `route` with the step over `e` to `next` added.
fn extended(route: &Route, next: NodeID, e: EdgeID, cost: u128) -> (longer: Route)
    ensures
        longer.nodes@ == route.nodes@.push(next),
        longer.edges@ == route.edges@.push(e),
        longer.cost == cost,
{
    let mut nodes = route.nodes.clone();
    nodes.push(next);
    let mut edges = route.edges.clone();
    edges.push(e);
    Route { nodes, edges, cost }
}

impl Clone for Route {
    fn clone(&self) -> (copy: Self)
        ensures
            copy.nodes@ == self.nodes@,
            copy.edges@ == self.edges@,
            copy.cost == self.cost,
    {
        Route { nodes: self.nodes.clone(), edges: self.edges.clone(), cost: self.cost }
    }
}

/// The edge that is to be avoided, as a handle.
pub open spec fn ban(banned: Option<EdgeID>) -> Option<usize> {
    match banned {
        Some(e) => Some(e.0),
        None => None,
    }
}

/// The lightest walk from `from` to `to` that uses the edge `banned`
/// nowhere; none where no walk leads there. Nodes are settled in the order
/// of their distance from `from`, each from the lightest walk known to it.
pub fn shortest_walk(graph: &Graph, from: NodeID, to: NodeID, banned: Option<EdgeID>) -> (found:
    Option<Route>)
    requires
        graph.wf(),
        graph@.nodes.dom().contains(from.0),
        graph@.nodes.dom().contains(to.0),
    ensures
        match found {
            Some(route) => is_route(graph@, from.0, to.0, ban(banned), route) && no_cheaper(
                graph@,
                from.0,
                to.0,
                ban(banned),
                route.cost as int,
            ) && route.edges@.len() < graph@.next_node_id,
            None => !reachable(graph@, from.0, to.0, ban(banned)),
        },
{
    let ghost view = graph@;
    let ghost avoid = ban(banned);
    proof {
        graph.lemma_wf_view();
    }
    let n: usize = graph.next_node_id().0;
    let mut best: Vec<Option<Route>> = Vec::new();
    let mut done: Vec<bool> = Vec::new();
    let mut i: usize = 0;
    while i < n
        invariant
            i <= n,
            best@.len() == i,
            done@.len() == i,
            forall|k: int| 0 <= k < i ==> (#[trigger] best@[k]).is_none(),
            forall|k: int| 0 <= k < i ==> !#[trigger] done@[k],
            count_set(done@) == 0,
        decreases n - i,
    {
        best.push(None);
        let ghost before = done@;
        done.push(false);
        assert(done@.drop_last() =~= before);
        i += 1;
    }
    let mut start_nodes: Vec<NodeID> = Vec::new();
    start_nodes.push(from);
    best[from.0] = Some(Route { nodes: start_nodes, edges: Vec::new(), cost: 0 });
    let ghost mut level: int = 0;
    proof {
        let r = best@[from.0 as int].unwrap();
        assert(route_nodes(r.nodes@) =~= seq![from.0]);
        assert(edge_ids(r.edges@) =~= Seq::<usize>::empty());
        assert(is_route(view, from.0, from.0, avoid, r));
        assert forall|v: int| 0 <= v < best@.len() implies #[trigger] entry_ok(
            view,
            from.0,
            avoid,
            best@,
            0,
            v,
        ) by {}
        assert forall|v: int| 0 <= v < best@.len() implies #[trigger] settled_ok(
            view,
            from.0,
            avoid,
            best@,
            done@,
            v,
        ) by {}
        assert forall|u: int, e: usize| 0 <= u < best@.len() implies #[trigger] relaxed_ok(
            view,
            avoid,
            best@,
            done@,
            u,
            e,
        ) by {}
        assert forall|v: int| 0 <= v < best@.len() implies #[trigger] level_ok(
            best@,
            done@,
            0,
            v,
        ) by {}
    }
    let mut rounds: usize = 0;
    while rounds < n
        invariant
            graph.wf(),
            view == graph@,
            avoid == ban(banned),
            n == view.next_node_id,
            to.0 < n,
            !done@[to.0 as int],
            search_ok(view, from.0, avoid, best@, done@, rounds as int, level, -1),
        decreases n - rounds,
    {
        let u: usize = match nearest(&best, &done) {
            Some(u) => u,
            None => {
                proof {
                    lemma_nothing_left(view, from.0, to.0, avoid, best@, done@, rounds as int, level);
                }
                return None;
            },
        };
        proof {
            lemma_settle(view, from.0, avoid, best@, done@, rounds as int, level, u as int);
            level = cost_of(best@, u as int);
        }
        let reached: Route = match &best[u] {
            Some(route) => route.clone(),
            None => Route { nodes: Vec::new(), edges: Vec::new(), cost: 0 },
        };
        assert(route_nodes(reached.nodes@) == route_nodes(best@[u as int].unwrap().nodes@));
        assert(edge_ids(reached.edges@) == edge_ids(best@[u as int].unwrap().edges@));
        if u == to.0 {
            return Some(reached);
        }
        done[u] = true;
        rounds += 1;
        proof {
            lemma_walk_nodes_exist(
                view,
                from.0,
                u,
                avoid,
                route_nodes(reached.nodes@),
                edge_ids(reached.edges@),
                reached.nodes@.len() - 1,
            );
        }
        let node = match graph.node(NodeID(u)) {
            Some(node) => node,
            None => {
                return None;
            },
        };
        let mut k: usize = 0;
        while k < node.edges.len()
            invariant
                graph.wf(),
                view == graph@,
                avoid == ban(banned),
                n == view.next_node_id,
                to.0 < n,
                u < n,
                u != to.0,
                !done@[to.0 as int],
                done@[u as int],
                rounds > 0,
                rounds <= n,
                view.nodes.dom().contains(u),
                node@ == view.nodes[u],
                k <= node.edges@.len(),
                level == reached.cost,
                is_route(view, from.0, u, avoid, reached),
                reached.edges@.len() < rounds,
                reached.cost <= (rounds - 1) * u64::MAX,
                cost_of(best@, u as int) == reached.cost,
                search_ok(view, from.0, avoid, best@, done@, rounds as int, level, u as int),
                forall|j: int|
                    0 <= j < k ==> relaxed_ok(
                        view,
                        avoid,
                        best@,
                        done@,
                        u as int,
                        (#[trigger] node.edges@[j]).0,
                    ),
            decreases node.edges@.len() - k,
        {
            let e: EdgeID = node.edges[k];
            assert(node@.edges.contains(e.0));
            assert(view.edges.dom().contains(e.0) && view.edges[e.0].touches(u));
            let is_banned = match banned {
                Some(b) => b == e,
                None => false,
            };
            if !is_banned {
                match graph.edge(e) {
                    Some(edge) => {
                        let v: NodeID = edge.other_node(NodeID(u));
                        let weight: u64 = linestring_length(&edge.linestring);
                        proof {
                            assert(weight == edge_weight(view, e.0));
                            assert(view.nodes.dom().contains(v.0));
                            assert((rounds - 1) * u64::MAX + u64::MAX == rounds * u64::MAX)
                                by (nonlinear_arith);
                            assert(rounds * u64::MAX <= 0xffff_ffff_ffff_ffff * 0xffff_ffff_ffff_ffff)
                                by (nonlinear_arith)
                                requires
                                    0 < rounds <= 0xffff_ffff_ffff_ffff,
                            ;
                        }
                        let cost: u128 = reached.cost + weight as u128;
                        let improves = match &best[v.0] {
                            Some(known) => cost < known.cost,
                            None => true,
                        };
                        if improves {
                            let longer = extended(&reached, v, e, cost);
                            proof {
                                assert(level_ok(best@, done@, level, v.0 as int));
                                lemma_walk_push(
                                    view,
                                    from.0,
                                    u,
                                    avoid,
                                    route_nodes(reached.nodes@),
                                    edge_ids(reached.edges@),
                                    v.0,
                                    e.0,
                                );
                                assert(route_nodes(longer.nodes@) =~= route_nodes(
                                    reached.nodes@,
                                ).push(v.0));
                                assert(edge_ids(longer.edges@) =~= edge_ids(reached.edges@).push(
                                    e.0,
                                ));
                                lemma_improve(
                                    view,
                                    from.0,
                                    avoid,
                                    best@,
                                    done@,
                                    rounds as int,
                                    level,
                                    u as int,
                                    v.0 as int,
                                    longer,
                                );
                            }
                            let ghost before = best@;
                            best[v.0] = Some(longer);
                            proof {
                                assert(best@ =~= before.update(v.0 as int, Some(longer)));
                                assert forall|j: int| 0 <= j < k implies relaxed_ok(
                                    view,
                                    avoid,
                                    best@,
                                    done@,
                                    u as int,
                                    (#[trigger] node.edges@[j]).0,
                                ) by {
                                    assert(relaxed_ok(
                                        view,
                                        avoid,
                                        before,
                                        done@,
                                        u as int,
                                        node.edges@[j].0,
                                    ));
                                }
                            }
                        }
                        assert(relaxed_ok(view, avoid, best@, done@, u as int, e.0));
                    },
                    None => {},
                }
            }
            k += 1;
        }
        proof {
            assert forall|e: usize|
                view.nodes[u].edges.contains(e) <==> node.edges@.contains(EdgeID(e)) by {}
            lemma_all_followed(
                view,
                from.0,
                avoid,
                best@,
                done@,
                rounds as int,
                level,
                u as int,
                node.edges@,
            );
        }
    }
    proof {
        lemma_count_set_bound(done@);
    }
    None
}

/// `nodes` and `edges` are a round trip from `at`: a walk that leaves `at`
/// over an edge to another node and comes back without that edge.
pub open spec fn is_round_trip(view: GraphView, at: usize, nodes: Seq<usize>, edges: Seq<usize>) -> bool {
    &&& edges.len() >= 1
    &&& nodes.len() == edges.len() + 1
    &&& nodes[0] == at
    &&& nodes[1] != at
    &&& view.edges.dom().contains(edges[0])
    &&& view.edges[edges[0]].joins(at, nodes[1])
    &&& is_walk(
        view,
        nodes[1],
        at,
        Some(edges[0]),
        nodes.subrange(1, nodes.len() as int),
        edges.subrange(1, edges.len() as int),
    )
}

/// No round trip from `at` weighs less than `cost`.
pub open spec fn no_cheaper_round_trip(view: GraphView, at: usize, cost: int) -> bool {
    forall|nodes: Seq<usize>, edges: Seq<usize>| #[trigger]
        is_round_trip(view, at, nodes, edges) ==> cost <= walk_weight(view, edges)
}

/// Some round trip from `at` exists.
pub open spec fn has_round_trip(view: GraphView, at: usize) -> bool {
    exists|nodes: Seq<usize>, edges: Seq<usize>| is_round_trip(view, at, nodes, edges)
}

/// What a search from `from` to `to` owes: between two nodes the lightest
/// walk, and from a node to itself the lightest round trip; nothing where
/// there is none.
pub open spec fn is_shortest(view: GraphView, from: usize, to: usize, found: Option<Route>) -> bool {
    if from != to {
        match found {
            Some(route) => is_route(view, from, to, None, route) && no_cheaper(
                view,
                from,
                to,
                None,
                route.cost as int,
            ),
            None => !reachable(view, from, to, None),
        }
    } else {
        match found {
            Some(route) => is_round_trip(
                view,
                from,
                route_nodes(route.nodes@),
                edge_ids(route.edges@),
            ) && route.cost == walk_weight(view, edge_ids(route.edges@)) && no_cheaper_round_trip(
                view,
                from,
                route.cost as int,
            ),
            None => !has_round_trip(view, from),
        }
    }
}

/// A walk weighs as much as its first edge and the rest together.
pub proof fn lemma_walk_weight_first(view: GraphView, edges: Seq<usize>)
    requires
        edges.len() >= 1,
    ensures
        walk_weight(view, edges) == edge_weight(view, edges[0]) + walk_weight(
            view,
            edges.subrange(1, edges.len() as int),
        ),
    decreases edges.len(),
{
    let rest = edges.subrange(1, edges.len() as int);
    if edges.len() == 1 {
        assert(edges.drop_last() =~= Seq::<usize>::empty());
        assert(rest =~= Seq::<usize>::empty());
    } else {
        lemma_walk_weight_first(view, edges.drop_last());
        assert(edges.drop_last().subrange(1, edges.len() - 1) =~= rest.drop_last());
        assert(rest.last() == edges.last());
    }
}

/// The round trip that leaves `at` over `e` and comes back along `back`.
fn round_trip(at: NodeID, e: EdgeID, back: Route, cost: u128) -> (trip: Route)
    ensures
        trip.nodes@ == seq![at] + back.nodes@,
        trip.edges@ == seq![e] + back.edges@,
        trip.cost == cost,
{
    let mut back = back;
    let mut nodes: Vec<NodeID> = Vec::new();
    nodes.push(at);
    nodes.append(&mut back.nodes);
    let mut edges: Vec<EdgeID> = Vec::new();
    edges.push(e);
    edges.append(&mut back.edges);
    Route { nodes, edges, cost }
}

/// The lightest round trip from `at`: over each edge that leaves `at` for
/// another node, the lightest way back that avoids the edge is sought, and
/// the lightest of the trips is taken.
pub fn shortest_round_trip(graph: &Graph, at: NodeID) -> (found: Option<Route>)
    requires
        graph.wf(),
        graph@.nodes.dom().contains(at.0),
    ensures
        is_shortest(graph@, at.0, at.0, found),
{
    let ghost view = graph@;
    proof {
        graph.lemma_wf_view();
    }
    let node = match graph.node(at) {
        Some(node) => node,
        None => {
            return None;
        },
    };
    let limit: NodeID = graph.next_node_id();
    let mut found: Option<Route> = None;
    let mut k: usize = 0;
    while k < node.edges.len()
        invariant
            graph.wf(),
            view == graph@,
            view.well_formed(),
            view.next_node_id == limit.0,
            view.nodes.dom().contains(at.0),
            node@ == view.nodes[at.0],
            k <= node.edges@.len(),
            match found {
                Some(route) => is_round_trip(
                    view,
                    at.0,
                    route_nodes(route.nodes@),
                    edge_ids(route.edges@),
                ) && route.cost == walk_weight(view, edge_ids(route.edges@)),
                None => true,
            },
            forall|nodes: Seq<usize>, edges: Seq<usize>, j: int| #[trigger]
                is_round_trip(view, at.0, nodes, edges) && 0 <= j < k && edges[0] == (
                #[trigger] node.edges@[j]).0 ==> found.is_some() && found.unwrap().cost
                    <= walk_weight(view, edges),
        decreases node.edges@.len() - k,
    {
        let e: EdgeID = node.edges[k];
        let ghost before = found;
        assert(node@.edges.contains(e.0));
        assert(view.edges.dom().contains(e.0) && view.edges[e.0].touches(at.0));
        let mut back: Option<Route> = None;
        let mut weight: u64 = 0;
        let mut v: NodeID = at;
        match graph.edge(e) {
            Some(edge) => {
                v = edge.other_node(at);
                weight = linestring_length(&edge.linestring);
                if v != at {
                    back = shortest_walk(graph, v, at, Some(e));
                }
            },
            None => {},
        }
        assert(weight == edge_weight(view, e.0));
        assert(v.0 == view.edges[e.0].other_node(at.0));
        match back {
            Some(route) => {
                proof {
                    lemma_walk_weight_prefix(view, edge_ids(route.edges@), 0);
                    assert(route.edges@.len() * u64::MAX <= 0xffff_ffff_ffff_fffe
                        * 0xffff_ffff_ffff_ffff) by (nonlinear_arith)
                        requires
                            route.edges@.len() <= 0xffff_ffff_ffff_fffe,
                    ;
                }
                let cost: u128 = route.cost + weight as u128;
                let better = match &found {
                    Some(known) => cost < known.cost,
                    None => true,
                };
                if better {
                    let ghost way_back = route;
                    let trip = round_trip(at, e, route, cost);
                    proof {
                        let ns = route_nodes(trip.nodes@);
                        let es = edge_ids(trip.edges@);
                        assert(ns.subrange(1, ns.len() as int) =~= route_nodes(way_back.nodes@));
                        assert(es.subrange(1, es.len() as int) =~= edge_ids(way_back.edges@));
                        assert(es[0] == e.0);
                        assert(ns[0] == at.0);
                        assert(ns[1] == v.0);
                        lemma_walk_weight_first(view, es);
                        assert(is_round_trip(view, at.0, ns, es));
                    }
                    found = Some(trip);
                }
            },
            None => {},
        }
        proof {
            assert forall|nodes: Seq<usize>, edges: Seq<usize>, j: int| #[trigger]
                is_round_trip(view, at.0, nodes, edges) && 0 <= j < k + 1 && edges[0] == (
                #[trigger] node.edges@[j]).0 implies found.is_some() && found.unwrap().cost
                <= walk_weight(view, edges) by {
                if j < k {
                    assert(before.is_some() && before.unwrap().cost <= walk_weight(view, edges));
                } else {
                    let rest_nodes = nodes.subrange(1, nodes.len() as int);
                    let rest_edges = edges.subrange(1, edges.len() as int);
                    assert(nodes[1] == v.0);
                    assert(is_walk(view, v.0, at.0, Some(e.0), rest_nodes, rest_edges));
                    lemma_walk_weight_first(view, edges);
                    assert(back.is_some());
                }
            }
        }
        k += 1;
    }
    proof {
        assert forall|nodes: Seq<usize>, edges: Seq<usize>| #[trigger]
            is_round_trip(view, at.0, nodes, edges) implies found.is_some() && found.unwrap().cost
            <= walk_weight(view, edges) by {
            let e0 = edges[0];
            assert(view.edges[e0].touches(at.0));
            assert(view.nodes[at.0].edges.contains(e0));
            assert(node.edges@.contains(EdgeID(e0)));
            let j = choose|j: int| 0 <= j < node.edges@.len() && node.edges@[j] == EdgeID(e0);
            assert(edges[0] == node.edges@[j].0);
        }
    }
    found
}

/// The lightest walk from `from` to `to` over the graph, edges weighing as
/// much as their centerlines are long. Between a node and itself the walk
/// of no edge does not count: the lightest round trip is sought instead.
pub fn shortest_path(graph: &Graph, from: NodeID, to: NodeID) -> (found: Option<Route>)
    requires
        graph.wf(),
        graph@.nodes.dom().contains(from.0),
        graph@.nodes.dom().contains(to.0),
    ensures
        is_shortest(graph@, from.0, to.0, found),
{
    if from == to {
        shortest_round_trip(graph, from)
    } else {
        shortest_walk(graph, from, to, None)
    }
}

} // verus!
