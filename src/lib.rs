//! Automatic layout and clipped drawing for node-instance graphs.
//!
//! The graph model is validated once, each instance gets a depth (its column),
//! columns are ordered and spaced, connections are routed through bend lanes,
//! and everything is drawn into a clipped cell grid under a scrollable viewport.

pub mod graph;
pub mod layering;
pub mod columns;
pub mod grid;
pub mod viewport;
pub mod diagram;
pub mod render;
pub mod session;

pub use graph::{index_of, GraphError, Instance, NodeGraph, Socket, NO_CONNECTION};
pub use layering::{compute_depths, LayoutError};
pub use columns::build_columns;
pub use grid::{Cell, CellKind, OverdrawBuffer, CROSSING};
pub use viewport::{visible_column_count, Action, Key, ViewState};
pub use diagram::{connections, Conn, Diagram, BOX_WIDTH, EXTENT_LIMIT, MARGIN};
pub use render::{cut_route, CONTINUES, HORIZONTAL, VERTICAL};
pub use session::Session;
