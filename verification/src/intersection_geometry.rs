//! Junction footprints: the roads that meet at an intersection are
//! thickened, and the overlaps of every two of them are merged.

use crate::geometry::Polygon;
use crate::{IntersectionID, MapModel, RoadID};
use vstd::prelude::*;

verus! {

/// By how much a road is thickened to either side: one metre.
pub const BUFFER: u64 = 1_000;

/// What is to be overlapped at one intersection: the thickened roads, and
/// the places of every two of them that are to be intersected, in the order
/// in which the overlaps are merged.
#[derive(Debug)]
pub struct Output {
    pub thick_roads: Vec<Polygon>,
    pub overlaps: Vec<(usize, usize)>,
}

/// The `k`-th of the ordered pairs of two different numbers below `n`,
/// counted row by row.
pub open spec fn pair_at(n: int, k: int) -> (int, int) {
    let first = k / (n - 1);
    let rest = k % (n - 1);
    (
        first,
        if rest < first {
            rest
        } else {
            rest + 1
        },
    )
}

/// The place, counted row by row, of the pair `(a, b)` among the ordered
/// pairs of two different numbers below `n`.
pub open spec fn place_of_pair(n: int, a: int, b: int) -> int {
    a * (n - 1) + (if b < a {
        b
    } else {
        b - 1
    })
}

/// A pair has the place that `pair_at` counts back from.
pub proof fn lemma_pair_place(n: int, a: int, b: int)
    requires
        0 <= a < n,
        0 <= b < n,
        a != b,
    ensures
        0 <= place_of_pair(n, a, b) < n * (n - 1),
        pair_at(n, place_of_pair(n, a, b)) == (a, b),
{
    let c = if b < a {
        b
    } else {
        b - 1
    };
    let k = place_of_pair(n, a, b);
    assert(k == (n - 1) * a + c) by (nonlinear_arith)
        requires
            k == a * (n - 1) + c,
    ;
    vstd::arithmetic::div_mod::lemma_fundamental_div_mod_converse(k, n - 1, a, c);
    assert(0 <= k < n * (n - 1)) by (nonlinear_arith)
        requires
            k == a * (n - 1) + c,
            0 <= a < n,
            0 <= c < n - 1,
    ;
}

/// Every ordered pair of two different numbers below `n`, row by row.
pub fn overlap_pairs(n: usize) -> (pairs: Vec<(usize, usize)>)
    ensures
        pairs@.len() == n * (n - 1),
        forall|k: int|
            0 <= k < pairs@.len() ==> (#[trigger] pairs@[k]).0 == pair_at(n as int, k).0
                && pairs@[k].1 == pair_at(n as int, k).1,
{
    let mut pairs: Vec<(usize, usize)> = Vec::new();
    let mut idx1: usize = 0;
    while idx1 < n
        invariant
            idx1 <= n,
            pairs@.len() == idx1 * (n - 1),
            forall|k: int|
                0 <= k < pairs@.len() ==> (#[trigger] pairs@[k]).0 == pair_at(n as int, k).0
                    && pairs@[k].1 == pair_at(n as int, k).1,
        decreases n - idx1,
    {
        let mut idx2: usize = 0;
        while idx2 < n
            invariant
                idx1 < n,
                idx2 <= n,
                pairs@.len() == idx1 * (n - 1) + (if idx2 <= idx1 {
                    idx2 as int
                } else {
                    idx2 - 1
                }),
                forall|k: int|
                    0 <= k < pairs@.len() ==> (#[trigger] pairs@[k]).0 == pair_at(n as int, k).0
                        && pairs@[k].1 == pair_at(n as int, k).1,
            decreases n - idx2,
        {
            if idx1 != idx2 {
                proof {
                    lemma_pair_place(n as int, idx1 as int, idx2 as int);
                }
                pairs.push((idx1, idx2));
            }
            idx2 += 1;
        }
        assert((idx1 + 1) * (n - 1) == idx1 * (n - 1) + (n - 1)) by (nonlinear_arith);
        idx1 += 1;
    }
    pairs
}

/// Those of `buffered` that are there, in order.
pub open spec fn kept(buffered: Seq<Option<Polygon>>) -> Seq<Seq<crate::geometry::Coord>>
    decreases buffered.len(),
{
    if buffered.len() == 0 {
        Seq::empty()
    } else {
        match buffered.last() {
            Some(polygon) => kept(buffered.drop_last()).push(polygon@),
            None => kept(buffered.drop_last()),
        }
    }
}

/// The roads that end at the intersection `i`, which are the ones to be
/// thickened by `BUFFER`.
pub fn roads_to_thicken(map: &MapModel, i: IntersectionID) -> (roads: &Vec<RoadID>)
    requires
        i.0 < map.intersections_view().len(),
    ensures
        roads@ == map.intersections_view()[i.0 as int].roads@,
{
    &map.intersections()[i.0].roads
}

/// Lays out the footprint of an intersection. `buffered` holds, for each
/// road that ends there, the road thickened by `BUFFER`, or nothing where it
/// could not be thickened. Those that are there are kept, and every two of
/// them are to be overlapped.
pub fn find_intersection_geometry(buffered: Vec<Option<Polygon>>) -> (out: Output)
    ensures
        out.thick_roads@.map_values(|p: Polygon| p@) == kept(buffered@),
        out.overlaps@.len() == out.thick_roads@.len() * (out.thick_roads@.len() - 1),
        forall|k: int|
            0 <= k < out.overlaps@.len() ==> (#[trigger] out.overlaps@[k]).0 == pair_at(
                out.thick_roads@.len() as int,
                k,
            ).0 && out.overlaps@[k].1 == pair_at(out.thick_roads@.len() as int, k).1,
{
    let mut thick_roads: Vec<Polygon> = Vec::new();
    let mut i: usize = 0;
    assert(thick_roads@.map_values(|p: Polygon| p@) =~= kept(buffered@.subrange(0, 0)));
    while i < buffered.len()
        invariant
            i <= buffered@.len(),
            thick_roads@.map_values(|p: Polygon| p@) == kept(buffered@.subrange(0, i as int)),
        decreases buffered@.len() - i,
    {
        let ghost before = thick_roads@;
        proof {
            let longer = buffered@.subrange(0, i + 1);
            assert(longer.drop_last() =~= buffered@.subrange(0, i as int));
            assert(longer.last() == buffered@[i as int]);
        }
        match &buffered[i] {
            Some(polygon) => {
                thick_roads.push(polygon.clone());
                assert(thick_roads@.map_values(|p: Polygon| p@) =~= before.map_values(
                    |p: Polygon| p@,
                ).push(polygon@));
            },
            None => {},
        }
        i += 1;
    }
    assert(buffered@.subrange(0, buffered@.len() as int) =~= buffered@);
    let overlaps = overlap_pairs(thick_roads.len());
    Output { thick_roads, overlaps }
}

} // verus!
