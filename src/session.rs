use vstd::prelude::*;
use crate::columns::is_column_layout;
use crate::diagram::{box_cell, conns_exact, extent_fits, Conn, Diagram, EXTENT_LIMIT, MARGIN};
use crate::graph::NodeGraph;
use crate::grid::{blank, CellKind, OverdrawBuffer};
use crate::render::{block_cell, marker_cell};
use crate::layering::{has_overlong_chain, is_longest_depth, LayoutError};
use crate::viewport::{next_view, Action, Key, ViewState};

verus! {

/// One interactive viewing session: the laid-out diagram, computed once, and
/// the scroll state that each key changes.
pub struct Session {
    diagram: Diagram,
    view: ViewState,
}

impl Session {
    pub closed spec fn diagram_view(&self) -> Diagram {
        self.diagram
    }

    pub closed spec fn view_state(&self) -> ViewState {
        self.view
    }

    /// The largest column offset: the deepest column is shown first at 0.
    pub open spec fn max_col(&self) -> usize {
        let n = self.diagram_view().columns_view().len();
        if n == 0 { 0 } else { (n - 1) as usize }
    }

    /// The largest row offset: the rows taken by the tallest column that a
    /// grid `width` cells wide shows whole.
    pub open spec fn max_row(&self, width: usize) -> usize {
        self.diagram_view().shown_rows(self.view_state(), width) as usize
    }

    pub open spec fn wf(&self) -> bool {
        &&& self.diagram_view().wf()
        &&& self.view_state().col_offset <= self.max_col()
    }

    /// The view after `key` for a grid `width` cells wide: the key scrolls one
    /// step within the bounds of the current view, and the row offset is then
    /// held within the tallest column that the new view shows whole.
    pub open spec fn after_key(&self, key: Key, width: usize) -> ViewState {
        let v1 = next_view(self.view_state(), key, self.max_col(), self.max_row(width));
        let bound = self.diagram_view().shown_rows(v1, width);
        ViewState {
            col_offset: v1.col_offset,
            row_offset: if v1.row_offset <= bound { v1.row_offset } else { bound as usize },
        }
    }

    /// Lays out `graph` and starts at the top-left of the diagram.
    pub fn new(graph: NodeGraph) -> (r: Result<Session, LayoutError>)
        requires
            graph.wf(),
        ensures
            has_overlong_chain(graph.instances_view()) ==> r == Err::<Session, LayoutError>(LayoutError::Cycle),
            r == Err::<Session, LayoutError>(LayoutError::Cycle) ==> has_overlong_chain(graph.instances_view()),
            r == Err::<Session, LayoutError>(LayoutError::TooLarge) ==> exists|d: Seq<usize>, cols: Seq<Vec<usize>>, conns: Seq<Conn>|
                is_longest_depth(graph.instances_view(), d) && is_column_layout(graph.instances_view(), d, cols)
                && conns_exact(graph.instances_view(), conns) && !extent_fits(graph.instances_view(), d, cols, conns),
            r matches Ok(s) ==> s.wf() && s.view_state().col_offset == 0 && s.view_state().row_offset == 0
                && s.diagram_view().graph_view() == graph.instances_view()
                && s.diagram_view().outputs_view() == graph.outputs_view()
                && s.diagram_view().inputs_view() == graph.inputs_view()
                && is_longest_depth(graph.instances_view(), s.diagram_view().depths_view())
                && is_column_layout(graph.instances_view(), s.diagram_view().depths_view(), s.diagram_view().columns_view())
                && conns_exact(graph.instances_view(), s.diagram_view().conns_view()),
    {
        match Diagram::build(graph) {
            Ok(diagram) => Ok(Session { diagram, view: ViewState::new() }),
            Err(e) => Err(e),
        }
    }

    pub fn view(&self) -> (r: ViewState)
        ensures
            r == self.view_state(),
    {
        self.view
    }

    pub fn diagram(&self) -> (r: &Diagram)
        ensures
            *r == self.diagram_view(),
    {
        &self.diagram
    }

    /// Applies one key for a grid `width` cells wide: scrolls within the
    /// diagram's bounds, or asks to quit.
    pub fn handle_key(&mut self, key: Key, width: usize) -> (r: Action)
        requires
            old(self).wf(),
        ensures
            final(self).wf(),
            final(self).diagram_view() == old(self).diagram_view(),
            final(self).view_state() == old(self).after_key(key, width),
            final(self).view_state().col_offset <= final(self).max_col(),
            final(self).view_state().row_offset <= final(self).max_row(width),
            r == (if key == Key::Quit { Action::Quit } else { Action::Redraw }),
    {
        let max_col = self.diagram.max_col_offset();
        let max_row = self.diagram.max_shown_rows(self.view, width);
        let r = self.view.handle_key(key, max_col, max_row);
        let bound = self.diagram.max_shown_rows(self.view, width);
        if self.view.row_offset > bound {
            self.view.row_offset = bound;
        }
        r
    }

    /// Draws the current view into a grid of `width` by `height` cells.
    pub fn frame(&self, width: usize, height: usize) -> (buf: OverdrawBuffer)
        requires
            self.wf(),
            width <= EXTENT_LIMIT,
            height <= EXTENT_LIMIT,
            width * height <= usize::MAX,
        ensures
            buf.wf(),
            buf.width_view() == width,
            buf.height_view() == height,
            buf.scroll_y_view() == if self.view_state().row_offset <= self.diagram_view().clear_row() {
                self.view_state().row_offset as int
            } else {
                self.diagram_view().clear_row()
            },
            self.diagram_view().columns_view().len() > 0 ==> buf.scroll_x_view() == self.diagram_view().x_of(
                self.diagram_view().first_shown(self.view_state())) - MARGIN,
            forall|cx: int, cy: int, c: int, p: int|
                #![trigger buf.cell(cx, cy), self.diagram_view().in_box(c, p, cx + buf.scroll_x_view(), cy + buf.scroll_y_view())]
                buf.in_grid(cx, cy) && self.diagram_view().shown(self.view_state(), width, c) && 0 <= p
                < self.diagram_view().columns_view()[c]@.len() && self.diagram_view().in_box(c, p, cx + buf.scroll_x_view(), cy
                + buf.scroll_y_view()) ==> buf.cell(cx, cy) == box_cell(),
            forall|cx: int, cy: int| buf.in_grid(cx, cy) && cx + buf.scroll_x_view() >= self.diagram_view().visible_end(
                self.view_state(), width) ==> #[trigger] buf.cell(cx, cy) == blank(),
            forall|c: int| 0 <= c <= self.diagram_view().first_shown(self.view_state()) && c < self.diagram_view().columns_view().len()
                && !#[trigger] self.diagram_view().shown(self.view_state(), width, c) ==> self.diagram_view().x_of(c)
                >= self.diagram_view().visible_end(self.view_state(), width),
            forall|k: int, cx: int, cy: int|
                #![trigger buf.cell(cx, cy), self.diagram_view().marked(self.view_state(), width, k)]
                0 <= k < self.diagram_view().conns_view().len() && self.diagram_view().marked(self.view_state(), width, k)
                && buf.in_grid(cx, cy) && cx + buf.scroll_x_view() == self.diagram_view().mark_x(self.view_state(), width, k)
                && cy + buf.scroll_y_view() == self.diagram_view().mark_y(self.view_state(), width, k)
                && !self.diagram_view().in_shown_box(self.view_state(), width, cx + buf.scroll_x_view(), cy + buf.scroll_y_view())
                && !self.diagram_view().in_block(self.view_state(), width, cx + buf.scroll_x_view(), cy + buf.scroll_y_view())
                ==> buf.cell(cx, cy) == marker_cell(),
            forall|cx: int, cy: int| buf.in_grid(cx, cy) && self.diagram_view().in_block(self.view_state(), width, cx
                + buf.scroll_x_view(), cy + buf.scroll_y_view()) ==> #[trigger] buf.cell(cx, cy) == block_cell(),
            forall|k: int, i: int, cx: int, cy: int|
                #![trigger buf.cell(cx, cy), self.diagram_view().on_kept_run(self.view_state(), width, k, i, cx + buf.scroll_x_view(), cy + buf.scroll_y_view())]
                0 <= k < self.diagram_view().conns_view().len() && buf.in_grid(cx, cy)
                && self.diagram_view().on_kept_run(self.view_state(), width, k, i, cx + buf.scroll_x_view(), cy + buf.scroll_y_view())
                && !self.diagram_view().in_shown_box(self.view_state(), width, cx + buf.scroll_x_view(), cy + buf.scroll_y_view())
                && !self.diagram_view().in_block(self.view_state(), width, cx + buf.scroll_x_view(), cy + buf.scroll_y_view())
                ==> buf.cell(cx, cy).kind == CellKind::Line || buf.cell(cx, cy).kind == CellKind::Text,
            forall|cx: int, cy: int| buf.in_grid(cx, cy) ==> #[trigger] buf.cell(cx, cy) == blank()
                || self.diagram_view().covered(self.view_state(), width, cx + buf.scroll_x_view(), cy + buf.scroll_y_view()),
    {
        self.diagram.render(self.view, width, height)
    }
}

} // verus!
