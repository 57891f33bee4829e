//! The whole layout: boxes, edges and paths of a graph, from its nodes.

use crate::edges::ascending;
use crate::edges::assigned_columns;
use crate::edges::enumerate_edges;
use crate::edges::ids_of;
use crate::edges::joins;
use crate::edges::lemma_ascending_unique;
use crate::edges::Edge;
use crate::geometry::Rect;
use crate::render::paths_markup;
use crate::render::rects_markup;
use crate::route::all_on_canvas;
use crate::route::path_at;
use crate::route::reading_at;
use crate::route::routable;
use crate::route::route_edges;
use crate::route::routed;
use crate::route::same_level;
use crate::route::spaced;
use crate::route::Path;
use crate::spacing::magnitude;
use crate::spacing::offsets;
use crate::spacing::spacing_has_offsets_with_stroke_two;
use crate::spacing::spacing_model;
use crate::spacing::spacing_offsets_in_range;
use crate::spacing::spacing_seq;
use crate::stack::fits_canvas;
use crate::stack::lowest_edge;
use crate::stack::rightmost_edge;
use crate::stack::slot_x;
use crate::stack::stack_columns;
use crate::stack::stack_fits;
use crate::stack::stacked;
use crate::stack::Node;
use vstd::prelude::*;

verus! {

/// The width of the stroke that the edges are drawn with.
pub const STROKE_WIDTH: i32 = 2;

/// The smallest gap between columns that leaves room to fan edges out.
pub const NARROWEST_GAP: u32 = 14;

/// A laid out graph: the box of each node in input order, the edges in
/// ascending order, the path of each edge whose ends both have a box, and the
/// size of the canvas.
#[derive(Debug)]
pub struct Diagram {
    pub rects: Vec<Rect>,
    pub edges: Vec<Edge>,
    pub paths: Vec<Path>,
    pub max_height: u32,
    pub max_width: u32,
}

/// A laid out graph as mathematical sequences.
pub struct DiagramView {
    pub rects: Seq<Rect>,
    pub edges: Seq<Edge>,
    pub paths: Seq<Path>,
    pub max_height: u32,
    pub max_width: u32,
}

impl View for Diagram {
    type V = DiagramView;

    open spec fn view(&self) -> DiagramView {
        DiagramView {
            rects: self.rects@,
            edges: self.edges@,
            paths: self.paths@,
            max_height: self.max_height,
            max_width: self.max_width,
        }
    }
}

/// The spacing sequence that a layout with the gap `gap` fans its edges out
/// with: for half the gap as the widest offset, and the stroke width.
pub open spec fn layout_offsets(gap: u32) -> Seq<i32> {
    let model = spacing_model(gap as int / 2, STROKE_WIDTH as int);
    Seq::new(model.len(), |i: int| model[i] as i32)
}

/// Some edge of the graph of `nodes` has a box at both ends.
pub open spec fn draws_an_edge(nodes: Seq<Node>) -> bool {
    exists|e: Edge|
        #![trigger joins(ids_of(nodes), assigned_columns(nodes), e)]
        joins(ids_of(nodes), assigned_columns(nodes), e) && e.source < nodes.len() && e.target
            < nodes.len()
}

/// `d` is the layout of `nodes` for boxes of the given size and the given gap.
pub open spec fn is_layout(
    nodes: Seq<Node>,
    node_height: u32,
    node_width: u32,
    gap: u32,
    d: DiagramView,
) -> bool {
    &&& d.rects == stacked(nodes, node_height, node_width, gap)
    &&& d.max_height == lowest_edge(d.rects)
    &&& d.max_width == rightmost_edge(d.rects)
    &&& ascending(d.edges)
    &&& forall|e: Edge| d.edges.contains(e) <==> joins(ids_of(nodes), assigned_columns(nodes), e)
    &&& d.paths == routed(d.rects, d.edges, layout_offsets(gap), (gap / 2) as u32, d.edges.len() as int)
}

/// Without an edge whose ends both have a box there is no path, whatever the offsets.
pub proof fn lemma_nothing_routed(
    rects: Seq<Rect>,
    edges: Seq<Edge>,
    seq: Seq<i32>,
    starting_at: u32,
    upto: int,
)
    requires
        upto <= edges.len(),
        forall|i: int| 0 <= i < edges.len() ==> !routable(rects, #[trigger] edges[i]),
    ensures
        routed(rects, edges, seq, starting_at, upto) == Seq::<Path>::empty(),
    decreases upto,
{
    if upto > 0 {
        lemma_nothing_routed(rects, edges, seq, starting_at, upto - 1);
    }
}

/// Whether some edge has a box at both ends.
fn any_routable(rects: &Vec<Rect>, edges: &Vec<Edge>) -> (result: bool)
    ensures
        result == exists|i: int| 0 <= i < edges.len() && routable(rects@, #[trigger] edges@[i]),
{
    let mut i: usize = 0;
    while i < edges.len()
        invariant
            i <= edges.len(),
            forall|k: int| 0 <= k < i ==> !routable(rects@, #[trigger] edges@[k]),
        decreases edges.len() - i,
    {
        if (edges[i].source as usize) < rects.len() && (edges[i].target as usize) < rects.len() {
            return true;
        }
        i += 1;
    }
    false
}

/// The paths of a layout: the edges routed with the spacing sequence for
/// half the gap and the stroke width.
fn fan_out(rects: &Vec<Rect>, edges: &Vec<Edge>, gap: u32) -> (result: Vec<Path>)
    requires
        all_on_canvas(rects@),
        (exists|i: int| 0 <= i < edges.len() && routable(rects@, #[trigger] edges@[i])) ==> gap
            >= NARROWEST_GAP,
    ensures
        result@ == routed(
            rects@,
            edges@,
            layout_offsets(gap),
            (gap / 2) as u32,
            edges.len() as int,
        ),
{
    let ghost seq = layout_offsets(gap);
    if !any_routable(rects, edges) {
        proof {
            lemma_nothing_routed(rects@, edges@, seq, (gap / 2) as u32, edges.len() as int);
        }
        return Vec::new();
    }
    proof {
        spacing_has_offsets_with_stroke_two(gap as int / 2);
    }
    let spacing = spacing_seq((gap / 2) as i32, STROKE_WIDTH);
    proof {
        let model = spacing_model(gap as int / 2, STROKE_WIDTH as int);
        assert(offsets(spacing@).len() == model.len());
        assert forall|k: int| 0 <= k < spacing@.len() implies spacing@[k] == seq[k] by {
            assert(offsets(spacing@)[k] == model[k]);
        }
        assert(spacing@ =~= seq);
    }
    route_edges(rects, edges, &spacing, gap / 2)
}

/// An edge that has a box at both ends is an edge that the graph draws.
proof fn lemma_routable_is_drawn(nodes: Seq<Node>, rects: Seq<Rect>, edges: Seq<Edge>)
    requires
        rects.len() == nodes.len(),
        forall|e: Edge| edges.contains(e) <==> joins(ids_of(nodes), assigned_columns(nodes), e),
    ensures
        draws_an_edge(nodes) <==> exists|i: int|
            0 <= i < edges.len() && routable(rects, #[trigger] edges[i]),
{
    if draws_an_edge(nodes) {
        let e = choose|e: Edge|
            #![trigger joins(ids_of(nodes), assigned_columns(nodes), e)]
            joins(ids_of(nodes), assigned_columns(nodes), e) && e.source < nodes.len() && e.target
                < nodes.len();
        assert(edges.contains(e));
        let i = choose|i: int| 0 <= i < edges.len() && edges[i] == e;
        assert(routable(rects, edges[i]));
    }
    if exists|i: int| 0 <= i < edges.len() && routable(rects, #[trigger] edges[i]) {
        let i = choose|i: int| 0 <= i < edges.len() && routable(rects, #[trigger] edges[i]);
        assert(edges.contains(edges[i]));
        assert(joins(ids_of(nodes), assigned_columns(nodes), edges[i]));
    }
}

/// The boxes of a stack all end within the range of a coordinate.
proof fn lemma_stacked_on_canvas(nodes: Seq<Node>, node_height: u32, node_width: u32, gap: u32)
    requires
        stack_fits(nodes, node_height, node_width, gap),
    ensures
        all_on_canvas(stacked(nodes, node_height, node_width, gap)),
{
    let rects = stacked(nodes, node_height, node_width, gap);
    assert forall|k: int| 0 <= k < rects.len() implies (#[trigger] rects[k]).on_canvas() by {
        assert(slot_x(nodes[k].column, node_width, gap) + node_width <= u32::MAX);
    }
}

/// Lays the graph out: stacks the boxes, lists the edges, and routes them
/// with the spacing sequence for half the gap and the stroke width.
pub fn layout(nodes: &Vec<Node>, node_height: u32, node_width: u32, gap: u32) -> (result: Diagram)
    requires
        stack_fits(nodes@, node_height, node_width, gap),
        nodes.len() * nodes.len() * 8 <= isize::MAX,
        draws_an_edge(nodes@) ==> gap >= NARROWEST_GAP,
    ensures
        is_layout(nodes@, node_height, node_width, gap, result@),
{
    let stack = stack_columns(nodes, node_height, node_width, gap);
    let edges = enumerate_edges(nodes);
    proof {
        lemma_stacked_on_canvas(nodes@, node_height, node_width, gap);
        lemma_routable_is_drawn(nodes@, stack.rects@, edges@);
    }
    let paths = fan_out(&stack.rects, &edges, gap);
    Diagram {
        rects: stack.rects,
        edges,
        paths,
        max_height: stack.max_height,
        max_width: stack.max_width,
    }
}

/// The inputs that `layout` takes: every box ends within the range of a
/// coordinate, the pairs of nodes can be held in memory, and the gap leaves
/// room to fan out where an edge is to be drawn.
pub open spec fn can_lay_out(nodes: Seq<Node>, node_height: u32, node_width: u32, gap: u32) -> bool {
    &&& stack_fits(nodes, node_height, node_width, gap)
    &&& nodes.len() * nodes.len() * 8 <= isize::MAX
    &&& draws_an_edge(nodes) ==> gap >= NARROWEST_GAP
}

/// The layout of the graph where `layout` takes the inputs, and nothing where
/// it does not.
pub fn try_layout(nodes: &Vec<Node>, node_height: u32, node_width: u32, gap: u32) -> (result:
    Option<Diagram>)
    ensures
        result is Some <==> can_lay_out(nodes@, node_height, node_width, gap),
        result is Some ==> is_layout(nodes@, node_height, node_width, gap, result->Some_0@),
{
    let n = nodes.len() as u128;
    if n >= 0x1_0000_0000 {
        assert(n * n * 8 > isize::MAX) by (nonlinear_arith)
            requires
                n >= 0x1_0000_0000,
                isize::MAX <= 0x7fff_ffff_ffff_ffff,
        ;
        return None;
    }
    assert(n * n * 8 <= 0x1_0000_0000 * 0x1_0000_0000 * 8) by (nonlinear_arith)
        requires
            0 <= n <= 0x1_0000_0000,
    ;
    if n * n * 8 > isize::MAX as u128 {
        return None;
    }
    if !fits_canvas(nodes, node_height, node_width, gap) {
        return None;
    }
    let stack = stack_columns(nodes, node_height, node_width, gap);
    let edges = enumerate_edges(nodes);
    proof {
        lemma_stacked_on_canvas(nodes@, node_height, node_width, gap);
        lemma_routable_is_drawn(nodes@, stack.rects@, edges@);
    }
    if gap < NARROWEST_GAP && any_routable(&stack.rects, &edges) {
        return None;
    }
    let paths = fan_out(&stack.rects, &edges, gap);
    Some(
        Diagram {
            rects: stack.rects,
            edges,
            paths,
            max_height: stack.max_height,
            max_width: stack.max_width,
        },
    )
}

/// A graph has one layout: two diagrams that are layouts of the same nodes,
/// for the same sizes, hold the same boxes, edges and paths, and so the same
/// markup.
pub proof fn layout_is_determined(
    nodes: Seq<Node>,
    node_height: u32,
    node_width: u32,
    gap: u32,
    a: DiagramView,
    b: DiagramView,
)
    requires
        is_layout(nodes, node_height, node_width, gap, a),
        is_layout(nodes, node_height, node_width, gap, b),
    ensures
        a == b,
        rects_markup(a.rects) == rects_markup(b.rects),
        paths_markup(a.paths) == paths_markup(b.paths),
{
    lemma_ascending_unique(a.edges, b.edges);
}

/// With a gap of 14 at least, each gap that a layout fans out by lies
/// strictly between 0 and the gap between columns.
pub proof fn layout_gaps_in_range(gap: u32, n: nat)
    requires
        gap >= NARROWEST_GAP,
    ensures
        0 < spaced(layout_offsets(gap), (gap / 2) as u32, n) < gap,
{
    let widest = gap as int / 2;
    let seq = layout_offsets(gap);
    spacing_has_offsets_with_stroke_two(widest);
    spacing_offsets_in_range(widest, 2);
    let at = n as int % (seq.len() - 1);
    assert(0 <= at < seq.len() - 1);
    let model = spacing_model(widest, 2);
    if at > 0 {
        assert(magnitude(model[at]) <= widest - 4);
    }
    assert(seq[at] == model[at] as i32);
}

/// In a layout with a gap of 14 at least, the path of an edge within one
/// column sets out to the left, and the path of one across columns to the right.
pub proof fn same_level_bows_left(rects: Seq<Rect>, edges: Seq<Edge>, gap: u32, i: int)
    requires
        gap >= NARROWEST_GAP,
        0 <= i < edges.len(),
        routable(rects, edges[i]),
    ensures
        same_level(rects, edges[i]) ==> path_at(
            rects,
            edges,
            layout_offsets(gap),
            (gap / 2) as u32,
            i,
        ).horizontal < 0,
        !same_level(rects, edges[i]) ==> path_at(
            rects,
            edges,
            layout_offsets(gap),
            (gap / 2) as u32,
            i,
        ).horizontal > 0,
{
    layout_gaps_in_range(gap, reading_at(rects, edges, i));
}

} // verus!
