//! Shortest paths on a rectangular grid.
//!
//! A grid of `width` by `height` cells is held as an undirected graph whose
//! nodes are the cells and whose edges join each cell to the cells directly
//! beside, above and below it. On that graph the crate searches a shortest
//! path between two cells and flattens graph and path into plain lists that
//! a renderer can write out.
pub mod coordinate;
pub mod flatten;
pub mod grid;
pub mod render;
pub mod search;
pub mod store;
pub mod sweep;
pub mod tally;
pub mod topology;

pub use coordinate::Coordinate2D;
pub use flatten::{flatten, FlatEdge, FlattenedView};
pub use grid::{make_graph, Config, GridGraph};
pub use render::{draw, Dot, Drawing, Line, NodeKind};
pub use search::find_path;
