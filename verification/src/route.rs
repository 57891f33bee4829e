//! Routing each edge as an elbow path, and fanning out the edges of one lane.

use crate::edges::Edge;
use crate::geometry::Point;
use crate::geometry::Rect;
use std::collections::HashMap;
use vstd::arithmetic::div_mod::lemma_mod_equivalence;
use vstd::prelude::*;

verus! {

/// The path of one edge: from `start` across by `horizontal`, down by
/// `vertical` (up where negative), then straight to `end`.
#[derive(Clone, Copy, Debug, PartialEq, Eq, Structural)]
pub struct Path {
    pub start: Point,
    pub horizontal: i64,
    pub vertical: i64,
    pub end: Point,
}

/// Both ends of `e` have a box.
pub open spec fn routable(rects: Seq<Rect>, e: Edge) -> bool {
    e.source < rects.len() && e.target < rects.len()
}

/// The boxes of both ends of `e` have the same left edge.
pub open spec fn same_level(rects: Seq<Rect>, e: Edge) -> bool {
    rects[e.source as int].top_left.x == rects[e.target as int].top_left.x
}

/// The lane that `e` runs through, by its `x`: the left edge of its source
/// where both ends are on one level, else that of its target.
pub open spec fn lane_of(rects: Seq<Rect>, e: Edge) -> u32 {
    if same_level(rects, e) {
        rects[e.source as int].top_left.x
    } else {
        rects[e.target as int].top_left.x
    }
}

/// How many of the first `upto` edges were routed through `lane`.
pub open spec fn lane_load(rects: Seq<Rect>, edges: Seq<Edge>, upto: int, lane: u32) -> nat
    decreases upto,
{
    if upto <= 0 {
        0
    } else {
        lane_load(rects, edges, upto - 1, lane) + if routable(rects, edges[upto - 1]) && lane_of(
            rects,
            edges[upto - 1],
        ) == lane {
            1nat
        } else {
            0nat
        }
    }
}

/// How many of the first `upto` edges were routed at all.
pub open spec fn routed_count(rects: Seq<Rect>, edges: Seq<Edge>, upto: int) -> nat
    decreases upto,
{
    if upto <= 0 {
        0
    } else {
        routed_count(rects, edges, upto - 1) + if routable(rects, edges[upto - 1]) {
            1nat
        } else {
            0nat
        }
    }
}

/// The count of a lane, 0 where it has none yet.
pub open spec fn occupancy(lanes: Map<u32, usize>, lane: u32) -> nat {
    if lanes.contains_key(lane) {
        lanes[lane] as nat
    } else {
        0
    }
}

/// The count by which an edge picks its offset, given the count of its lane
/// before it: that count on one level, and one more across columns.
pub open spec fn reading(rects: Seq<Rect>, e: Edge, before: nat) -> nat {
    if same_level(rects, e) {
        before
    } else {
        before + 1
    }
}

/// The gap for the count `n`: `starting_at` and the offset of `seq` at `n`,
/// taken round all of `seq` but its last place.
pub open spec fn spaced(seq: Seq<i32>, starting_at: u32, n: nat) -> int {
    starting_at + seq[n as int % (seq.len() - 1)]
}

/// The path of `e`, where its lane had `before` edges: from the middle of the
/// source's left edge and to the left on one level, from the middle of its
/// right edge and to the right across columns; then to the level of the
/// target, and to the middle of the target's left edge.
pub open spec fn edge_path(
    rects: Seq<Rect>,
    e: Edge,
    seq: Seq<i32>,
    starting_at: u32,
    before: nat,
) -> Path {
    let from = rects[e.source as int];
    let to = rects[e.target as int];
    let gap = spaced(seq, starting_at, reading(rects, e, before));
    Path {
        start: if same_level(rects, e) {
            from.left_middle()
        } else {
            from.right_middle()
        },
        horizontal: if same_level(rects, e) {
            (-gap) as i64
        } else {
            gap as i64
        },
        vertical: (to.top_left.y - from.top_left.y) as i64,
        end: to.left_middle(),
    }
}

/// The path of the edge at `i`, by the edges routed before it.
pub open spec fn path_at(
    rects: Seq<Rect>,
    edges: Seq<Edge>,
    seq: Seq<i32>,
    starting_at: u32,
    i: int,
) -> Path {
    edge_path(
        rects,
        edges[i],
        seq,
        starting_at,
        lane_load(rects, edges, i, lane_of(rects, edges[i])),
    )
}

/// The paths of the first `upto` edges, in their order; an edge with an end
/// that has no box has none.
pub open spec fn routed(
    rects: Seq<Rect>,
    edges: Seq<Edge>,
    seq: Seq<i32>,
    starting_at: u32,
    upto: int,
) -> Seq<Path>
    decreases upto,
{
    if upto <= 0 {
        Seq::empty()
    } else {
        let rest = routed(rects, edges, seq, starting_at, upto - 1);
        if routable(rects, edges[upto - 1]) {
            rest.push(path_at(rects, edges, seq, starting_at, upto - 1))
        } else {
            rest
        }
    }
}

/// Every box ends within the range of a coordinate.
pub open spec fn all_on_canvas(rects: Seq<Rect>) -> bool {
    forall|k: int| 0 <= k < rects.len() ==> (#[trigger] rects[k]).on_canvas()
}

/// The gap for the `n`th edge of a lane.
pub fn space_out_edges(starting_at: u32, n: usize, seq: &Vec<i32>) -> (result: i64)
    requires
        seq.len() >= 2,
    ensures
        result == spaced(seq@, starting_at, n as nat),
{
    let index = n % (seq.len() - 1);
    (starting_at as i64) + (seq[index] as i64)
}

/// Routes one edge and counts it in its lane; an edge with an end that has no
/// box is passed over.
pub fn route_edge(
    rects: &Vec<Rect>,
    edge: &Edge,
    lanes: &mut HashMap<u32, usize>,
    seq: &Vec<i32>,
    starting_at: u32,
) -> (result: Option<Path>)
    requires
        seq.len() >= 2,
        all_on_canvas(rects@),
        routable(rects@, *edge) ==> occupancy(old(lanes)@, lane_of(rects@, *edge)) < usize::MAX,
    ensures
        result is Some <==> routable(rects@, *edge),
        result is None ==> final(lanes)@ == old(lanes)@,
        result is Some ==> {
            let lane = lane_of(rects@, *edge);
            let before = occupancy(old(lanes)@, lane);
            &&& final(lanes)@ == old(lanes)@.insert(lane, (before + 1) as usize)
            &&& result->Some_0 == edge_path(rects@, *edge, seq@, starting_at, before)
        },
{
    broadcast use vstd::std_specs::hash::group_hash_axioms;

    if edge.source as usize >= rects.len() || edge.target as usize >= rects.len() {
        return None;
    }
    let start = rects[edge.source as usize];
    let end = rects[edge.target as usize];
    proof {
        assert(start.on_canvas());
        assert(end.on_canvas());
    }
    let same_level = start.top_left.x == end.top_left.x;
    let lane = if same_level {
        start.top_left.x
    } else {
        end.top_left.x
    };
    let before: usize = match lanes.get(&lane) {
        Some(count) => *count,
        None => 0,
    };
    lanes.insert(lane, before + 1);
    let path_start = if same_level {
        start.top_left + Point { x: 0, y: start.height / 2 }
    } else {
        start.top_left + Point { x: start.width, y: start.height / 2 }
    };
    let lane_edge_count = if same_level {
        before
    } else {
        before + 1
    };
    let gap = space_out_edges(starting_at, lane_edge_count, seq);
    let horizontal = if same_level {
        -gap
    } else {
        gap
    };
    let vertical = end.top_left.y_diff(&start.top_left);
    let path_end = end.top_left + Point { x: 0, y: end.height / 2 };
    Some(Path { start: path_start, horizontal, vertical, end: path_end })
}

/// A lane has no more edges than were looked at.
pub proof fn lemma_lane_load_bound(rects: Seq<Rect>, edges: Seq<Edge>, upto: int, lane: u32)
    requires
        0 <= upto,
    ensures
        lane_load(rects, edges, upto, lane) <= upto,
    decreases upto,
{
    if upto > 0 {
        lemma_lane_load_bound(rects, edges, upto - 1, lane);
    }
}

/// Routes the edges in their order: one path for each edge whose ends both
/// have a box, its gap picked by the edges routed through its lane before it.
pub fn route_edges(rects: &Vec<Rect>, edges: &Vec<Edge>, seq: &Vec<i32>, starting_at: u32) -> (result:
    Vec<Path>)
    requires
        seq.len() >= 2,
        all_on_canvas(rects@),
    ensures
        result@ == routed(rects@, edges@, seq@, starting_at, edges.len() as int),
{
    let mut edges_in_lane: HashMap<u32, usize> = HashMap::new();
    let mut result: Vec<Path> = Vec::new();
    let mut i: usize = 0;
    while i < edges.len()
        invariant
            i <= edges.len(),
            seq.len() >= 2,
            all_on_canvas(rects@),
            result@ == routed(rects@, edges@, seq@, starting_at, i as int),
            forall|lane: u32|
                occupancy(edges_in_lane@, lane) == #[trigger] lane_load(
                    rects@,
                    edges@,
                    i as int,
                    lane,
                ),
        decreases edges.len() - i,
    {
        let ghost lanes_before = edges_in_lane@;
        proof {
            if routable(rects@, edges@[i as int]) {
                lemma_lane_load_bound(
                    rects@,
                    edges@,
                    i as int,
                    lane_of(rects@, edges@[i as int]),
                );
            }
        }
        match route_edge(rects, &edges[i], &mut edges_in_lane, seq, starting_at) {
            Some(path) => {
                result.push(path);
            },
            None => {},
        }
        proof {
            assert forall|lane: u32|
                occupancy(edges_in_lane@, lane) == #[trigger] lane_load(
                    rects@,
                    edges@,
                    i + 1,
                    lane,
                ) by {
                assert(occupancy(lanes_before, lane) == lane_load(rects@, edges@, i as int, lane));
            }
        }
        i += 1;
    }
    result
}

/// The offsets of `seq` that the counts go round, all but the last place, differ.
pub open spec fn cycle_distinct(seq: Seq<i32>) -> bool {
    forall|i: int, j: int| 0 <= i < j < seq.len() - 1 ==> seq[i] != seq[j]
}

/// The count by which the edge at `i` picks its offset.
pub open spec fn reading_at(rects: Seq<Rect>, edges: Seq<Edge>, i: int) -> nat {
    reading(rects, edges[i], lane_load(rects, edges, i, lane_of(rects, edges[i])))
}

/// The count of a lane grows with the edges looked at.
pub proof fn lemma_lane_load_grows(rects: Seq<Rect>, edges: Seq<Edge>, i: int, j: int, lane: u32)
    requires
        0 <= i <= j,
    ensures
        lane_load(rects, edges, i, lane) <= lane_load(rects, edges, j, lane),
    decreases j - i,
{
    if i < j {
        lemma_lane_load_grows(rects, edges, i, j - 1, lane);
    }
}

/// The number of paths grows with the edges looked at.
pub proof fn lemma_routed_count_grows(rects: Seq<Rect>, edges: Seq<Edge>, i: int, j: int)
    requires
        0 <= i <= j,
    ensures
        routed_count(rects, edges, i) <= routed_count(rects, edges, j),
    decreases j - i,
{
    if i < j {
        lemma_routed_count_grows(rects, edges, i, j - 1);
    }
}

/// There is one path for each edge whose ends both have a box, and the path
/// of the edge at `i` comes after those of the edges routed before it.
pub proof fn routed_holds_path_of_edge(
    rects: Seq<Rect>,
    edges: Seq<Edge>,
    seq: Seq<i32>,
    starting_at: u32,
    upto: int,
    i: int,
)
    requires
        0 <= i < upto,
        routable(rects, edges[i]),
    ensures
        routed(rects, edges, seq, starting_at, upto).len() == routed_count(rects, edges, upto),
        routed_count(rects, edges, i) < routed_count(rects, edges, upto),
        routed(rects, edges, seq, starting_at, upto)[routed_count(rects, edges, i) as int]
            == path_at(rects, edges, seq, starting_at, i),
    decreases upto,
{
    lemma_routed_len(rects, edges, seq, starting_at, upto);
    lemma_routed_len(rects, edges, seq, starting_at, upto - 1);
    lemma_routed_count_grows(rects, edges, i + 1, upto);
    if i < upto - 1 {
        routed_holds_path_of_edge(rects, edges, seq, starting_at, upto - 1, i);
    }
}

/// There is one path for each edge whose ends both have a box.
pub proof fn lemma_routed_len(
    rects: Seq<Rect>,
    edges: Seq<Edge>,
    seq: Seq<i32>,
    starting_at: u32,
    upto: int,
)
    ensures
        routed(rects, edges, seq, starting_at, upto).len() == routed_count(rects, edges, upto),
    decreases upto,
{
    if upto > 0 {
        lemma_routed_len(rects, edges, seq, starting_at, upto - 1);
    }
}

/// A count and the count one cycle later get the same gap.
pub proof fn fan_out_repeats(seq: Seq<i32>, starting_at: u32, m: nat, n: nat)
    requires
        seq.len() >= 2,
        (n - m) % (seq.len() - 1) == 0,
    ensures
        spaced(seq, starting_at, m) == spaced(seq, starting_at, n),
{
    lemma_mod_equivalence(n as int, m as int, seq.len() - 1);
}

/// Where the offsets of the cycle differ, two counts get the same gap only
/// if they are a whole number of cycles apart.
pub proof fn fan_out_differs(seq: Seq<i32>, starting_at: u32, m: nat, n: nat)
    requires
        seq.len() >= 2,
        cycle_distinct(seq),
        (n - m) % (seq.len() - 1) != 0,
    ensures
        spaced(seq, starting_at, m) != spaced(seq, starting_at, n),
{
    let cycle = seq.len() - 1;
    lemma_mod_equivalence(n as int, m as int, cycle);
    let a = m as int % cycle;
    let b = n as int % cycle;
    assert(0 <= a < cycle && 0 <= b < cycle);
    if a < b {
        assert(seq[a] != seq[b]);
    } else {
        assert(seq[b] != seq[a]);
    }
}

/// Of two edges routed through one lane, the later never picks its offset by
/// a lower count; and by a higher one, unless the earlier runs across columns
/// and the later on one level.
pub proof fn shared_lane_counts_grow(rects: Seq<Rect>, edges: Seq<Edge>, i: int, j: int)
    requires
        0 <= i < j < edges.len(),
        routable(rects, edges[i]),
        routable(rects, edges[j]),
        lane_of(rects, edges[i]) == lane_of(rects, edges[j]),
    ensures
        reading_at(rects, edges, i) <= reading_at(rects, edges, j),
        same_level(rects, edges[i]) || !same_level(rects, edges[j]) ==> reading_at(rects, edges, i)
            < reading_at(rects, edges, j),
        same_level(rects, edges[i]) == same_level(rects, edges[j]) ==> reading_at(rects, edges, j)
            - reading_at(rects, edges, i) == lane_load(
            rects,
            edges,
            j,
            lane_of(rects, edges[i]),
        ) - lane_load(rects, edges, i, lane_of(rects, edges[i])),
{
    lemma_lane_load_grows(rects, edges, i + 1, j, lane_of(rects, edges[i]));
}

/// Two edges of one kind (both on one level, or both across columns) that
/// share a lane: where the offsets of the cycle differ, their paths go
/// across by different amounts, unless a whole number of cycles of edges was
/// routed through the lane from the first to the second.
pub proof fn shared_lane_fans_out(
    rects: Seq<Rect>,
    edges: Seq<Edge>,
    seq: Seq<i32>,
    starting_at: u32,
    i: int,
    j: int,
)
    requires
        seq.len() >= 2,
        cycle_distinct(seq),
        0 <= i < j < edges.len(),
        routable(rects, edges[i]),
        routable(rects, edges[j]),
        lane_of(rects, edges[i]) == lane_of(rects, edges[j]),
        same_level(rects, edges[i]) == same_level(rects, edges[j]),
        (lane_load(rects, edges, j, lane_of(rects, edges[i])) - lane_load(
            rects,
            edges,
            i,
            lane_of(rects, edges[i]),
        )) % (seq.len() - 1) != 0,
    ensures
        path_at(rects, edges, seq, starting_at, i).horizontal != path_at(
            rects,
            edges,
            seq,
            starting_at,
            j,
        ).horizontal,
{
    shared_lane_counts_grow(rects, edges, i, j);
    fan_out_differs(
        seq,
        starting_at,
        reading_at(rects, edges, i),
        reading_at(rects, edges, j),
    );
}

/// Two edges of one kind that share a lane, a whole number of cycles of
/// edges apart in that lane: their paths go across by the same amount.
pub proof fn shared_lane_repeats(
    rects: Seq<Rect>,
    edges: Seq<Edge>,
    seq: Seq<i32>,
    starting_at: u32,
    i: int,
    j: int,
)
    requires
        seq.len() >= 2,
        0 <= i < j < edges.len(),
        routable(rects, edges[i]),
        routable(rects, edges[j]),
        lane_of(rects, edges[i]) == lane_of(rects, edges[j]),
        same_level(rects, edges[i]) == same_level(rects, edges[j]),
        (lane_load(rects, edges, j, lane_of(rects, edges[i])) - lane_load(
            rects,
            edges,
            i,
            lane_of(rects, edges[i]),
        )) % (seq.len() - 1) == 0,
    ensures
        path_at(rects, edges, seq, starting_at, i).horizontal == path_at(
            rects,
            edges,
            seq,
            starting_at,
            j,
        ).horizontal,
{
    shared_lane_counts_grow(rects, edges, i, j);
    fan_out_repeats(
        seq,
        starting_at,
        reading_at(rects, edges, i),
        reading_at(rects, edges, j),
    );
}

} // verus!
