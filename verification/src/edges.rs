//! The edges of the graph: one from a node to each other node of its own
//! column and of the next, kept in ascending order.

use crate::stack::Node;
use std::collections::HashMap;
use vstd::arithmetic::div_mod::lemma_fundamental_div_mod_converse;
use vstd::prelude::*;

verus! {

/// A directed edge between two nodes, by their identifiers.
#[derive(Clone, Copy, Debug, PartialEq, Eq, PartialOrd, Ord, Structural)]
pub struct Edge {
    pub source: u32,
    pub target: u32,
}

/// `a` comes before `b`: by source, then by target.
pub open spec fn precedes(a: Edge, b: Edge) -> bool {
    a.source < b.source || (a.source == b.source && a.target < b.target)
}

/// Each edge comes before every later one, so none occurs twice.
pub open spec fn ascending(edges: Seq<Edge>) -> bool {
    forall|i: int, j: int| 0 <= i < j < edges.len() ==> precedes(edges[i], edges[j])
}

/// A column and one an edge may lead to from it: the same, or the next.
pub open spec fn adjacent(from: u8, to: u8) -> bool {
    from <= to && to - from <= 1
}

/// The two ends of `e` differ, both have a column, and the columns are adjacent.
pub open spec fn links(columns: Map<u32, u8>, e: Edge) -> bool {
    &&& e.source != e.target
    &&& columns.contains_key(e.source)
    &&& columns.contains_key(e.target)
    &&& adjacent(columns[e.source], columns[e.target])
}

/// `e` is an edge of the graph: it links two of `ids`.
pub open spec fn joins(ids: Seq<u32>, columns: Map<u32, u8>, e: Edge) -> bool {
    &&& ids.contains(e.source)
    &&& ids.contains(e.target)
    &&& links(columns, e)
}

/// The identifiers of `nodes`, in input order.
pub open spec fn ids_of(nodes: Seq<Node>) -> Seq<u32> {
    Seq::new(nodes.len(), |i: int| nodes[i].id)
}

/// The column of each identifier: where one occurs twice, that of its last node.
pub open spec fn assigned_columns(nodes: Seq<Node>) -> Map<u32, u8>
    decreases nodes.len(),
{
    if nodes.len() == 0 {
        Map::empty()
    } else {
        assigned_columns(nodes.drop_last()).insert(nodes.last().id, nodes.last().column)
    }
}

/// One of the first `k` pairs holds the ends of `e`.
pub open spec fn paired_before(pairs: Seq<(u32, u32)>, k: int, e: Edge) -> bool {
    exists|p: int| 0 <= p < k && #[trigger] pairs[p] == (e.source, e.target)
}

/// `pairs` holds each of `left` with each of `right`: those of an earlier
/// `left` first, and for one of `left` in the order of `right`.
pub open spec fn is_product(pairs: Seq<(u32, u32)>, left: Seq<u32>, right: Seq<u32>) -> bool {
    &&& pairs.len() == left.len() * right.len()
    &&& forall|k: int|
        0 <= k < pairs.len() ==> #[trigger] pairs[k] == (
            left[k / right.len() as int],
            right[k % right.len() as int],
        )
}

/// `itertools::Itertools::cartesian_product` on the two runs of identifiers,
/// collected into a vector. The adaptor takes one item of `left` after the
/// other, and walks a fresh copy of `right` for each: so the vector has
/// `left.len() * right.len()` pairs, and the pair at `k` is made of the item
/// of `left` at `k / right.len()` and the item of `right` at `k % right.len()`.
#[verifier::external_body]
fn id_pairs(left: &Vec<u32>, right: &Vec<u32>) -> (pairs: Vec<(u32, u32)>)
    requires
        left.len() * right.len() * 8 <= isize::MAX,
    ensures
        is_product(pairs@, left@, right@),
{
    itertools::Itertools::cartesian_product(left.iter().copied(), right.iter().copied()).collect()
}

/// The pairs of a product of `ids` with itself are the pairs of two of `ids`.
pub proof fn lemma_product_pairs(pairs: Seq<(u32, u32)>, ids: Seq<u32>, e: Edge)
    requires
        is_product(pairs, ids, ids),
    ensures
        paired_before(pairs, pairs.len() as int, e) <==> ids.contains(e.source) && ids.contains(
            e.target,
        ),
{
    let n = ids.len() as int;
    if paired_before(pairs, pairs.len() as int, e) {
        let p = choose|p: int| 0 <= p < pairs.len() && #[trigger] pairs[p] == (e.source, e.target);
        assert(n > 0) by (nonlinear_arith)
            requires
                0 <= p < n * n,
                n >= 0,
        ;
        assert(0 <= p / n < n && 0 <= p % n < n) by (nonlinear_arith)
            requires
                0 <= p < n * n,
                n > 0,
        ;
        assert(ids[p / n] == e.source);
        assert(ids[p % n] == e.target);
    }
    if ids.contains(e.source) && ids.contains(e.target) {
        let i = choose|i: int| 0 <= i < n && ids[i] == e.source;
        let j = choose|j: int| 0 <= j < n && ids[j] == e.target;
        let p = i * n + j;
        assert(0 <= p < n * n) by (nonlinear_arith)
            requires
                0 <= i < n,
                0 <= j < n,
                p == i * n + j,
        ;
        lemma_fundamental_div_mod_converse(p, n, i, j);
        assert(pairs[p] == (e.source, e.target));
    }
}

/// An ascending run of edges holds none twice.
pub proof fn ascending_has_no_duplicates(edges: Seq<Edge>)
    requires
        ascending(edges),
    ensures
        edges.no_duplicates(),
{
    assert forall|i: int, j: int| 0 <= i < edges.len() && 0 <= j < edges.len() && i != j implies edges[i] != edges[j] by {
        if i < j {
            assert(precedes(edges[i], edges[j]));
        } else {
            assert(precedes(edges[j], edges[i]));
        }
    }
}

/// Two ascending runs that hold the same edges are the same run.
pub proof fn lemma_ascending_unique(a: Seq<Edge>, b: Seq<Edge>)
    requires
        ascending(a),
        ascending(b),
        forall|e: Edge| a.contains(e) <==> b.contains(e),
    ensures
        a == b,
    decreases a.len(),
{
    if a.len() == 0 {
        if b.len() > 0 {
            assert(b.contains(b[0]));
        }
        assert(a =~= b);
    } else {
        let top = a.last();
        assert(a.contains(top));
        assert(b.contains(top));
        let at = choose|at: int| 0 <= at < b.len() && b[at] == top;
        if at < b.len() - 1 {
            let beyond = b.last();
            assert(precedes(top, beyond));
            assert(b.contains(beyond));
            let back = choose|back: int| 0 <= back < a.len() && a[back] == beyond;
            if back < a.len() - 1 {
                assert(precedes(a[back], top));
            }
        }
        assert(b.last() == top);
        let a0 = a.drop_last();
        let b0 = b.drop_last();
        assert forall|e: Edge| a0.contains(e) <==> b0.contains(e) by {
            if a0.contains(e) {
                let i = choose|i: int| 0 <= i < a0.len() && a0[i] == e;
                assert(a[i] == e);
                assert(precedes(a[i], top));
                assert(a.contains(e));
                let j = choose|j: int| 0 <= j < b.len() && b[j] == e;
                assert(b0[j] == e);
            }
            if b0.contains(e) {
                let i = choose|i: int| 0 <= i < b0.len() && b0[i] == e;
                assert(b[i] == e);
                assert(precedes(b[i], top));
                assert(b.contains(e));
                let j = choose|j: int| 0 <= j < a.len() && a[j] == e;
                assert(a0[j] == e);
            }
        }
        lemma_ascending_unique(a0, b0);
        assert(a =~= a0.push(top));
        assert(b =~= b0.push(top));
    }
}

/// Of two nodes in different columns, one edge at most is in the graph: where
/// `a` leads to `b`, `b` does not lead to `a`.
pub proof fn no_reverse_edge_between_columns(ids: Seq<u32>, columns: Map<u32, u8>, a: u32, b: u32)
    requires
        joins(ids, columns, (Edge { source: a, target: b })),
        columns[a] != columns[b],
    ensures
        !joins(ids, columns, (Edge { source: b, target: a })),
{
}

/// Where no identifier occurs twice, each has the column of its node.
pub proof fn lemma_assigned_column(nodes: Seq<Node>, i: int)
    requires
        ids_of(nodes).no_duplicates(),
        0 <= i < nodes.len(),
    ensures
        assigned_columns(nodes).contains_key(nodes[i].id),
        assigned_columns(nodes)[nodes[i].id] == nodes[i].column,
    decreases nodes.len(),
{
    if i < nodes.len() - 1 {
        let rest = nodes.drop_last();
        assert forall|a: int, b: int|
            0 <= a < rest.len() && 0 <= b < rest.len() && a != b implies ids_of(rest)[a] != ids_of(
            rest,
        )[b] by {
            assert(ids_of(nodes)[a] != ids_of(nodes)[b]);
        }
        lemma_assigned_column(rest, i);
        assert(ids_of(nodes)[i] != ids_of(nodes)[nodes.len() - 1]);
    }
}

/// Where no identifier occurs twice: from a node to another there is an edge
/// if, and only if, the column of the second is that of the first or the next.
pub proof fn edges_follow_columns(nodes: Seq<Node>, i: int, j: int)
    requires
        ids_of(nodes).no_duplicates(),
        0 <= i < nodes.len(),
        0 <= j < nodes.len(),
        i != j,
    ensures
        joins(
            ids_of(nodes),
            assigned_columns(nodes),
            (Edge { source: nodes[i].id, target: nodes[j].id }),
        ) <==> nodes[i].column <= nodes[j].column && nodes[j].column - nodes[i].column <= 1,
{
    lemma_assigned_column(nodes, i);
    lemma_assigned_column(nodes, j);
    assert(ids_of(nodes)[i] == nodes[i].id);
    assert(ids_of(nodes)[j] == nodes[j].id);
    assert(ids_of(nodes)[i] != ids_of(nodes)[j]);
}

/// Puts `e` at its place in the ascending run `edges`, unless it is there.
pub fn insert_edge(edges: &mut Vec<Edge>, e: Edge)
    requires
        ascending(old(edges)@),
    ensures
        ascending(final(edges)@),
        forall|x: Edge| final(edges)@.contains(x) <==> old(edges)@.contains(x) || x == e,
{
    let mut at: usize = 0;
    while at < edges.len() && (edges[at].source < e.source || (edges[at].source == e.source
        && edges[at].target < e.target))
        invariant
            *edges == *old(edges),
            at <= edges.len(),
            forall|k: int| 0 <= k < at ==> precedes(#[trigger] edges@[k], e),
        decreases edges.len() - at,
    {
        at += 1;
    }
    if at < edges.len() && edges[at].source == e.source && edges[at].target == e.target {
        proof {
            assert(edges@[at as int] == e);
        }
    } else {
        edges.insert(at, e);
        proof {
            let before = old(edges)@;
            let after = edges@;
            assert forall|i: int, j: int| 0 <= i < j < after.len() implies precedes(
                after[i],
                after[j],
            ) by {
                if j < at {
                    assert(precedes(before[i], before[j]));
                } else if j == at {
                } else if i < at {
                    assert(precedes(before[i], before[j - 1]));
                } else if i == at {
                    assert(!precedes(before[at as int], e));
                    if j - 1 > at {
                        assert(precedes(before[at as int], before[j - 1]));
                    }
                } else {
                    assert(precedes(before[i - 1], before[j - 1]));
                }
            }
            assert forall|x: Edge| after.contains(x) <==> before.contains(x) || x == e by {
                if after.contains(x) {
                    let i = choose|i: int| 0 <= i < after.len() && after[i] == x;
                    if i < at {
                        assert(before[i] == x);
                    } else if i > at {
                        assert(before[i - 1] == x);
                    }
                }
                if before.contains(x) {
                    let i = choose|i: int| 0 <= i < before.len() && before[i] == x;
                    if i < at {
                        assert(after[i] == x);
                    } else {
                        assert(after[i + 1] == x);
                    }
                }
                if x == e {
                    assert(after[at as int] == x);
                }
            }
        }
    }
}

/// The edges among `ids` under the column map `columns`, ascending: an edge
/// from each identifier to each other one whose column is the same or the
/// next. An identifier without a column has no edge.
pub fn edges_between(ids: &Vec<u32>, columns: &HashMap<u32, u8>) -> (result: Vec<Edge>)
    requires
        ids.len() * ids.len() * 8 <= isize::MAX,
    ensures
        ascending(result@),
        forall|e: Edge| result@.contains(e) <==> joins(ids@, columns@, e),
{
    broadcast use vstd::std_specs::hash::group_hash_axioms;

    let pairs = id_pairs(ids, ids);
    let mut result: Vec<Edge> = Vec::new();
    for k in 0..pairs.len()
        invariant
            ascending(result@),
            forall|e: Edge| #[trigger]
                result@.contains(e) <==> links(columns@, e) && paired_before(pairs@, k as int, e),
    {
        let (start, end) = pairs[k];
        let ghost before = result@;
        let candidate = Edge { source: start, target: end };
        match (columns.get(&start), columns.get(&end)) {
            (Some(start_col), Some(end_col)) => {
                if start != end && *start_col <= *end_col && *end_col - *start_col <= 1 {
                    insert_edge(&mut result, candidate);
                }
            },
            _ => {},
        }
        proof {
            assert forall|e: Edge| #[trigger]
                result@.contains(e) <==> links(columns@, e) && paired_before(
                    pairs@,
                    k + 1,
                    e,
                ) by {
                if paired_before(pairs@, k as int, e) {
                    let p = choose|p: int| 0 <= p < k && #[trigger] pairs@[p] == (e.source, e.target);
                    assert(0 <= p < k + 1 && pairs@[p] == (e.source, e.target));
                }
                if e == candidate {
                    assert(pairs@[k as int] == (e.source, e.target));
                }
                if paired_before(pairs@, k + 1, e) {
                    let p = choose|p: int|
                        0 <= p < k + 1 && #[trigger] pairs@[p] == (e.source, e.target);
                    if p < k {
                        assert(paired_before(pairs@, k as int, e));
                    } else {
                        assert(e == candidate);
                    }
                }
                assert(before.contains(e) <==> links(columns@, e) && paired_before(
                    pairs@,
                    k as int,
                    e,
                ));
            }
        }
    }
    proof {
        assert forall|e: Edge| result@.contains(e) <==> joins(ids@, columns@, e) by {
            lemma_product_pairs(pairs@, ids@, e);
        }
    }
    result
}

/// The edges of the graph of `nodes`, ascending: an edge from each node to
/// each other one whose column is the same or the next.
pub fn enumerate_edges(nodes: &Vec<Node>) -> (result: Vec<Edge>)
    requires
        nodes.len() * nodes.len() * 8 <= isize::MAX,
    ensures
        ascending(result@),
        forall|e: Edge| result@.contains(e) <==> joins(ids_of(nodes@), assigned_columns(nodes@), e),
{
    broadcast use vstd::std_specs::hash::group_hash_axioms;

    let mut ids: Vec<u32> = Vec::new();
    let mut columns: HashMap<u32, u8> = HashMap::new();
    for i in 0..nodes.len()
        invariant
            ids@ == ids_of(nodes@.take(i as int)),
            columns@ == assigned_columns(nodes@.take(i as int)),
    {
        proof {
            assert(nodes@.take(i + 1).drop_last() == nodes@.take(i as int));
            assert(ids_of(nodes@.take(i + 1)) == ids_of(nodes@.take(i as int)).push(nodes@[i as int].id));
        }
        ids.push(nodes[i].id);
        columns.insert(nodes[i].id, nodes[i].column);
    }
    proof {
        assert(nodes@.take(nodes.len() as int) == nodes@);
    }
    edges_between(&ids, &columns)
}

} // verus!
