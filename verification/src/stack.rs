//! Placing each node's box: by column across, in input order down.

use crate::geometry::Point;
use crate::geometry::Rect;
use std::collections::HashMap;
use vstd::prelude::*;

verus! {

/// A node of the graph: its identifier and the column it was assigned to.
#[derive(Clone, Copy, Debug, PartialEq, Eq, Structural)]
pub struct Node {
    pub id: u32,
    pub column: u8,
}

/// The boxes of a graph, one per node in input order, and the canvas they need.
#[derive(Debug)]
pub struct Stack {
    pub rects: Vec<Rect>,
    pub max_height: u32,
    pub max_width: u32,
}

/// How many of the first `upto` nodes lie in `column`.
pub open spec fn earlier_in_column(nodes: Seq<Node>, column: u8, upto: int) -> nat
    decreases upto,
{
    if upto <= 0 {
        0
    } else {
        earlier_in_column(nodes, column, upto - 1) + if nodes[upto - 1].column == column {
            1nat
        } else {
            0nat
        }
    }
}

/// The left edge of a box in `column`.
pub open spec fn slot_x(column: u8, node_width: u32, gap: u32) -> int {
    column * (node_width + gap)
}

/// The upper edge of the box of node `i`: one box and one gap down for each
/// earlier node of its column.
pub open spec fn slot_y(nodes: Seq<Node>, i: int, node_height: u32, gap: u32) -> int {
    earlier_in_column(nodes, nodes[i].column, i) * (node_height + gap)
}

/// Every box ends within the range of a coordinate.
pub open spec fn stack_fits(nodes: Seq<Node>, node_height: u32, node_width: u32, gap: u32) -> bool {
    forall|i: int|
        0 <= i < nodes.len() ==> {
            &&& slot_x(#[trigger] nodes[i].column, node_width, gap) + node_width <= u32::MAX
            &&& slot_y(nodes, i, node_height, gap) + node_height <= u32::MAX
        }
}

/// The box of node `i`.
pub open spec fn placed(
    nodes: Seq<Node>,
    i: int,
    node_height: u32,
    node_width: u32,
    gap: u32,
) -> Rect {
    Rect {
        height: node_height,
        width: node_width,
        top_left: Point {
            x: slot_x(nodes[i].column, node_width, gap) as u32,
            y: slot_y(nodes, i, node_height, gap) as u32,
        },
    }
}

/// The boxes of all nodes, in input order.
pub open spec fn stacked(nodes: Seq<Node>, node_height: u32, node_width: u32, gap: u32) -> Seq<
    Rect,
> {
    Seq::new(nodes.len(), |i: int| placed(nodes, i, node_height, node_width, gap))
}

/// The lowest lower edge among `rects`, 0 where there is none.
pub open spec fn lowest_edge(rects: Seq<Rect>) -> int
    decreases rects.len(),
{
    if rects.len() == 0 {
        0
    } else {
        let rest = lowest_edge(rects.drop_last());
        let edge = rects.last().top_left.y + rects.last().height;
        if rest >= edge {
            rest
        } else {
            edge
        }
    }
}

/// The rightmost right edge among `rects`, 0 where there is none.
pub open spec fn rightmost_edge(rects: Seq<Rect>) -> int
    decreases rects.len(),
{
    if rects.len() == 0 {
        0
    } else {
        let rest = rightmost_edge(rects.drop_last());
        let edge = rects.last().top_left.x + rects.last().width;
        if rest >= edge {
            rest
        } else {
            edge
        }
    }
}

/// The count of a column grows with the prefix, and by one at least over a
/// node of that column.
pub proof fn lemma_earlier_grows(nodes: Seq<Node>, column: u8, i: int, j: int)
    requires
        0 <= i <= j,
    ensures
        earlier_in_column(nodes, column, i) <= earlier_in_column(nodes, column, j),
        i < j && nodes[i].column == column ==> earlier_in_column(nodes, column, i) + 1
            <= earlier_in_column(nodes, column, j),
    decreases j - i,
{
    if i < j {
        lemma_earlier_grows(nodes, column, i, j - 1);
    }
}

/// Two nodes of one column have their boxes at one `x`, in input order from
/// the top, the later one a box and a gap below the earlier at least.
pub proof fn stacked_in_input_order(
    nodes: Seq<Node>,
    node_height: u32,
    node_width: u32,
    gap: u32,
    i: int,
    j: int,
)
    requires
        stack_fits(nodes, node_height, node_width, gap),
        0 <= i < j < nodes.len(),
        nodes[i].column == nodes[j].column,
    ensures
        stacked(nodes, node_height, node_width, gap)[i].top_left.x == stacked(
            nodes,
            node_height,
            node_width,
            gap,
        )[j].top_left.x,
        stacked(nodes, node_height, node_width, gap)[i].top_left.y + node_height + gap <= stacked(
            nodes,
            node_height,
            node_width,
            gap,
        )[j].top_left.y,
{
    let column = nodes[i].column;
    let a = earlier_in_column(nodes, column, i) as int;
    let b = earlier_in_column(nodes, column, j) as int;
    let pitch = node_height + gap;
    lemma_earlier_grows(nodes, column, i, j);
    assert(a * pitch + pitch <= b * pitch) by (nonlinear_arith)
        requires
            a + 1 <= b,
            pitch >= 0,
    ;
    assert(slot_x(nodes[i].column, node_width, gap) + node_width <= u32::MAX);
    assert(slot_x(nodes[j].column, node_width, gap) + node_width <= u32::MAX);
}

/// Places the box of each node: in its column across, and below the boxes of
/// the earlier nodes of that column; and measures the canvas.
pub fn stack_columns(nodes: &Vec<Node>, node_height: u32, node_width: u32, gap: u32) -> (result:
    Stack)
    requires
        stack_fits(nodes@, node_height, node_width, gap),
    ensures
        result.rects@ == stacked(nodes@, node_height, node_width, gap),
        result.max_height == lowest_edge(result.rects@),
        result.max_width == rightmost_edge(result.rects@),
{
    broadcast use vstd::std_specs::hash::group_hash_axioms;

    let mut current_y: HashMap<u8, u32> = HashMap::new();
    let mut rects: Vec<Rect> = Vec::new();
    let mut max_height: u32 = 0;
    let mut max_width: u32 = 0;
    let ghost pitch = node_height + gap;
    for i in 0..nodes.len()
        invariant
            stack_fits(nodes@, node_height, node_width, gap),
            pitch == node_height + gap,
            rects@.len() == i,
            forall|k: int|
                0 <= k < i ==> #[trigger] rects@[k] == placed(
                    nodes@,
                    k,
                    node_height,
                    node_width,
                    gap,
                ),
            max_height == lowest_edge(rects@),
            max_width == rightmost_edge(rects@),
            forall|c: u8| #[trigger]
                current_y@.contains_key(c) <==> earlier_in_column(nodes@, c, i as int) > 0,
            forall|c: u8| #[trigger]
                current_y@.contains_key(c) ==> current_y@[c] == (earlier_in_column(
                    nodes@,
                    c,
                    i as int,
                ) - 1) * pitch,
    {
        let column = nodes[i].column;
        let ghost seen = earlier_in_column(nodes@, column, i as int) as int;
        proof {
            assert(slot_x(nodes@[i as int].column, node_width, gap) + node_width <= u32::MAX);
            assert(slot_y(nodes@, i as int, node_height, gap) + node_height <= u32::MAX);
            assert(seen * pitch == (seen - 1) * pitch + pitch) by (nonlinear_arith);
            assert(column * (node_width + gap) <= 255 * (node_width + gap)) by (nonlinear_arith)
                requires
                    column <= 255,
            ;
        }
        let x64: u64 = (column as u64) * (node_width as u64 + gap as u64);
        let x: u32 = x64 as u32;
        let y: u32 = match current_y.get(&column) {
            Some(above) => *above + node_height + gap,
            None => {
                assert(seen * pitch == 0) by (nonlinear_arith)
                    requires
                        seen == 0,
                ;
                0
            },
        };
        let next = Rect { height: node_height, width: node_width, top_left: Point { x, y } };
        proof {
            assert(next == placed(nodes@, i as int, node_height, node_width, gap));
            assert(rects@.push(next).drop_last() == rects@);
        }
        if y + node_height > max_height {
            max_height = y + node_height;
        }
        if x + node_width > max_width {
            max_width = x + node_width;
        }
        current_y.insert(column, y);
        rects.push(next);
    }
    proof {
        assert(rects@ =~= stacked(nodes@, node_height, node_width, gap));
    }
    Stack { rects, max_height, max_width }
}

/// Whether every box would end within the range of a coordinate.
pub fn fits_canvas(nodes: &Vec<Node>, node_height: u32, node_width: u32, gap: u32) -> (ok: bool)
    ensures
        ok == stack_fits(nodes@, node_height, node_width, gap),
{
    broadcast use vstd::std_specs::hash::group_hash_axioms;

    let mut current_y: HashMap<u8, u64> = HashMap::new();
    let ghost pitch = node_height + gap;
    let mut i: usize = 0;
    while i < nodes.len()
        invariant
            i <= nodes.len(),
            pitch == node_height + gap,
            forall|k: int|
                0 <= k < i ==> {
                    &&& slot_x(#[trigger] nodes@[k].column, node_width, gap) + node_width
                        <= u32::MAX
                    &&& slot_y(nodes@, k, node_height, gap) + node_height <= u32::MAX
                },
            forall|c: u8| #[trigger]
                current_y@.contains_key(c) <==> earlier_in_column(nodes@, c, i as int) > 0,
            forall|c: u8| #[trigger]
                current_y@.contains_key(c) ==> current_y@[c] == (earlier_in_column(
                    nodes@,
                    c,
                    i as int,
                ) - 1) * pitch && current_y@[c] <= u32::MAX,
        decreases nodes.len() - i,
    {
        let column = nodes[i].column;
        let ghost seen = earlier_in_column(nodes@, column, i as int) as int;
        proof {
            assert(seen * pitch == (seen - 1) * pitch + pitch) by (nonlinear_arith);
            assert(0 <= column * (node_width + gap) <= 255 * (node_width + gap))
                by (nonlinear_arith)
                requires
                    0 <= column <= 255,
                    0 <= node_width + gap,
            ;
        }
        let right: u64 = (column as u64) * (node_width as u64 + gap as u64) + node_width as u64;
        let y: u64 = match current_y.get(&column) {
            Some(above) => *above + node_height as u64 + gap as u64,
            None => {
                assert(seen * pitch == 0) by (nonlinear_arith)
                    requires
                        seen == 0,
                ;
                0
            },
        };
        if right > u32::MAX as u64 || y + node_height as u64 > u32::MAX as u64 {
            proof {
                assert(right == slot_x(nodes@[i as int].column, node_width, gap) + node_width);
                assert(y == slot_y(nodes@, i as int, node_height, gap));
            }
            return false;
        }
        current_y.insert(column, y);
        i += 1;
    }
    true
}

} // verus!
