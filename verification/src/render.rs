//! Laying out a flattened graph as a drawing: a line for each edge and a dot
//! for each node, at positions scaled from their coordinates.
//!
//! Positions are computed in 32 bits, which hold every product of a scale
//! and a coordinate of 16 bits, so that no input overflows.
use crate::coordinate::Coordinate2D;
use crate::flatten::{FlatEdge, FlattenedView};
use crate::grid::Config;
use vstd::prelude::*;

verus! {

/// What a dot stands for.
#[derive(Clone, Copy, Debug, PartialEq, Eq, Structural)]
pub enum NodeKind {
    /// The cell at which the path starts.
    Start,
    /// The cell at which the path ends.
    Goal,
    /// Any other cell.
    Ordinary,
}

/// A line between the positions of two cells.
#[derive(Clone, Copy, Debug, PartialEq, Eq, Structural)]
pub struct Line {
    pub x1: i32,
    pub y1: i32,
    pub x2: i32,
    pub y2: i32,
    pub on_path: bool,
}

/// A dot at the position of a cell.
#[derive(Clone, Copy, Debug, PartialEq, Eq, Structural)]
pub struct Dot {
    pub cx: i32,
    pub cy: i32,
    pub r: i32,
    pub kind: NodeKind,
}

/// A drawing: the size of its canvas, a line for each edge and a dot for
/// each node.
#[derive(Clone, Debug, PartialEq, Eq)]
pub struct Drawing {
    pub width: i32,
    pub height: i32,
    pub lines: Vec<Line>,
    pub dots: Vec<Dot>,
}

/// `scale` divided by `by`, rounded towards zero.
pub open spec fn share(scale: int, by: int) -> int {
    if scale >= 0 {
        scale / by
    } else {
        -((-scale) / by)
    }
}

/// The position of coordinate `at` along one axis: half a scale step from
/// the border, then one step for each unit.
pub open spec fn place(scale: int, at: int) -> int {
    share(scale, 2) + scale * at
}

/// The extent of the canvas along an axis of `cells` cells: one scale step
/// for each cell and one more.
pub open spec fn canvas(scale: int, cells: int) -> int {
    cells * scale + scale
}

/// The line that stands for `edge`.
pub open spec fn line_of(scale: int, edge: FlatEdge) -> Line {
    Line {
        x1: place(scale, edge.from.x as int) as i32,
        y1: place(scale, edge.from.y as int) as i32,
        x2: place(scale, edge.to.x as int) as i32,
        y2: place(scale, edge.to.y as int) as i32,
        on_path: edge.on_path,
    }
}

/// What the cell at `at` stands for: the start wins over the goal where both
/// are the same cell.
pub open spec fn kind_of(start: Coordinate2D, goal: Coordinate2D, at: Coordinate2D) -> NodeKind {
    if at == start {
        NodeKind::Start
    } else if at == goal {
        NodeKind::Goal
    } else {
        NodeKind::Ordinary
    }
}

/// The dot that stands for the cell at `at`: a tenth of the scale in radius
/// for the start and the goal, a fifteenth for the others.
pub open spec fn dot_of(
    scale: int,
    start: Coordinate2D,
    goal: Coordinate2D,
    at: Coordinate2D,
) -> Dot {
    Dot {
        cx: place(scale, at.x as int) as i32,
        cy: place(scale, at.y as int) as i32,
        r: (if kind_of(start, goal, at) == NodeKind::Ordinary {
            share(scale, 15)
        } else {
            share(scale, 10)
        }) as i32,
        kind: kind_of(start, goal, at),
    }
}

/// `scale` divided by `by`, rounded towards zero.
fn share_of(scale: i16, by: u32) -> (part: i32)
    requires
        0 < by <= 15,
    ensures
        part == share(scale as int, by as int),
        -0x8000 <= part <= 0x8000,
{
    if scale >= 0 {
        ((scale as u32) / by) as i32
    } else {
        let size: u32 = (-(scale as i32)) as u32;
        -((size / by) as i32)
    }
}

/// The position of coordinate `at` along one axis.
fn place_of(scale: i16, at: i16) -> (position: i32)
    ensures
        position == place(scale as int, at as int),
{
    let step: i32 = scale as i32;
    let units: i32 = at as i32;
    assert(-0x4000_0000 <= step * units <= 0x4000_0000) by (nonlinear_arith)
        requires
            -0x8000 <= step <= 0x7fff,
            -0x8000 <= units <= 0x7fff,
    ;
    share_of(scale, 2) + step * units
}

/// The extent of the canvas along an axis of `cells` cells.
fn canvas_of(scale: i16, cells: i16) -> (extent: i32)
    ensures
        extent == canvas(scale as int, cells as int),
{
    let step: i32 = scale as i32;
    let count: i32 = cells as i32;
    assert(-0x4000_0000 <= count * step <= 0x4000_0000) by (nonlinear_arith)
        requires
            -0x8000 <= step <= 0x7fff,
            -0x8000 <= count <= 0x7fff,
    ;
    count * step + step
}

/// Lays out the flattened graph for drawing.
///
/// The canvas is one scale step wider and higher than the grid that `config`
/// asks for. Each edge becomes a line between the positions of its two ends
/// and keeps its mark; each node becomes a dot at its position, told apart as
/// start, goal or ordinary cell. Lines and dots come in the order of the
/// edges and nodes of `view`.
pub fn draw(view: &FlattenedView, config: &Config) -> (drawing: Drawing)
    ensures
        drawing.width == canvas(config.scale as int, config.width as int),
        drawing.height == canvas(config.scale as int, config.height as int),
        drawing.lines@.len() == view.edges@.len(),
        forall|k: int|
            0 <= k < view.edges@.len() ==> #[trigger] drawing.lines@[k] == line_of(
                config.scale as int,
                view.edges@[k],
            ),
        drawing.dots@.len() == view.nodes@.len(),
        forall|k: int|
            0 <= k < view.nodes@.len() ==> #[trigger] drawing.dots@[k] == dot_of(
                config.scale as int,
                config.start,
                config.goal,
                view.nodes@[k],
            ),
{
    let scale = config.scale;
    let mut lines: Vec<Line> = Vec::new();
    let mut i: usize = 0;
    while i < view.edges.len()
        invariant
            i <= view.edges@.len(),
            scale == config.scale,
            lines@.len() == i,
            forall|k: int|
                0 <= k < i ==> #[trigger] lines@[k] == line_of(scale as int, view.edges@[k]),
        decreases view.edges@.len() - i,
    {
        let edge = view.edges[i];
        lines.push(
            Line {
                x1: place_of(scale, edge.from.x),
                y1: place_of(scale, edge.from.y),
                x2: place_of(scale, edge.to.x),
                y2: place_of(scale, edge.to.y),
                on_path: edge.on_path,
            },
        );
        i += 1;
    }
    let mut dots: Vec<Dot> = Vec::new();
    let mut j: usize = 0;
    while j < view.nodes.len()
        invariant
            j <= view.nodes@.len(),
            scale == config.scale,
            dots@.len() == j,
            forall|k: int|
                0 <= k < j ==> #[trigger] dots@[k] == dot_of(
                    scale as int,
                    config.start,
                    config.goal,
                    view.nodes@[k],
                ),
        decreases view.nodes@.len() - j,
    {
        let at = view.nodes[j];
        let kind = if at.is_at(config.start) {
            NodeKind::Start
        } else if at.is_at(config.goal) {
            NodeKind::Goal
        } else {
            NodeKind::Ordinary
        };
        let r = match kind {
            NodeKind::Ordinary => share_of(scale, 15),
            _ => share_of(scale, 10),
        };
        dots.push(Dot { cx: place_of(scale, at.x), cy: place_of(scale, at.y), r, kind });
        j += 1;
    }
    Drawing {
        width: canvas_of(scale, config.width),
        height: canvas_of(scale, config.height),
        lines,
        dots,
    }
}

} // verus!
