use node_view::{
    cut_route, visible_column_count, Action, Cell, CellKind, Diagram, Instance, Key, NodeGraph,
    OverdrawBuffer, Session, Socket, ViewState, CONTINUES, CROSSING, HORIZONTAL, VERTICAL,
};

fn inst(id: usize, targets: &[usize]) -> Instance {
    Instance { id, sockets: targets.iter().map(|t| Socket::Connection(*t, 0)).collect(), y_hint: 0 }
}

fn chain3() -> NodeGraph {
    NodeGraph::new(vec![inst(1, &[2]), inst(2, &[3]), inst(3, &[])], vec![(1, 0)], vec![]).unwrap()
}

fn fill() -> Cell {
    Cell { glyph: '#', kind: CellKind::Fill(3) }
}

fn all_blank(b: &OverdrawBuffer) -> bool {
    (0..b.height()).all(|y| (0..b.width()).all(|x| b.get(x, y).kind == CellKind::Blank))
}

#[test]
fn rect_fully_outside_changes_nothing() {
    let mut b = OverdrawBuffer::new(10, 5, 0, 0, true);
    b.fill_rect(10, 0, 4, 4, fill());
    b.fill_rect(-6, 1, 5, 2, fill());
    b.fill_rect(2, -3, 3, 3, fill());
    b.fill_rect(2, 5, 3, 3, fill());
    b.fill_rect(i64::MAX, i64::MIN, usize::MAX, usize::MAX, fill());
    assert!(all_blank(&b));
}

#[test]
fn rect_straddling_edge_fills_in_bounds_part() {
    let mut b = OverdrawBuffer::new(10, 5, 0, 0, true);
    b.fill_rect(8, 3, 5, 5, fill());
    for y in 0..5 {
        for x in 0..10 {
            let inside = x >= 8 && y >= 3;
            assert_eq!(b.get(x, y) == fill(), inside, "cell {x},{y}");
        }
    }
}

#[test]
fn scroll_offsets_translate_draws() {
    let mut b = OverdrawBuffer::new(6, 4, 10, 2, true);
    b.fill_rect(11, 3, 1, 1, fill());
    assert_eq!(b.get(1, 1), fill());
    b.fill_rect(0, 0, 10, 2, fill());
    assert_eq!(b.get(0, 0).kind, CellKind::Blank);
}

#[test]
fn randomized_rects_stay_clipped() {
    let mut seed: u64 = 12345;
    let mut next = move || {
        seed = seed.wrapping_mul(6364136223846793005).wrapping_add(1442695040888963407);
        (seed >> 33) as i64
    };
    for _ in 0..200 {
        let sx = next() % 20 - 10;
        let sy = next() % 20 - 10;
        let mut b = OverdrawBuffer::new(7, 5, sx, sy, true);
        let x = next() % 40 - 20;
        let y = next() % 40 - 20;
        let w = (next() % 15) as usize;
        let h = (next() % 15) as usize;
        b.fill_rect(x, y, w, h, fill());
        for cy in 0..5usize {
            for cx in 0..7usize {
                let wx = cx as i64 + sx;
                let wy = cy as i64 + sy;
                let inside = x <= wx && wx < x + w as i64 && y <= wy && wy < y + h as i64;
                assert_eq!(b.get(cx, cy) == fill(), inside);
            }
        }
    }
}

#[test]
fn crossing_lines_meet_in_crossing_glyph() {
    let mut b = OverdrawBuffer::new(5, 5, 0, 0, true);
    b.draw_hline(0, 2, 5, HORIZONTAL);
    b.draw_vline(2, 0, 5, VERTICAL);
    assert_eq!(b.get(2, 2).glyph, CROSSING);
    assert_eq!(b.get(1, 2).glyph, HORIZONTAL);
    assert_eq!(b.get(2, 1).glyph, VERTICAL);
}

#[test]
fn plain_mode_overwrites_lines() {
    let mut b = OverdrawBuffer::new(5, 5, 0, 0, false);
    b.draw_hline(0, 2, 5, HORIZONTAL);
    b.draw_vline(2, 0, 5, VERTICAL);
    assert_eq!(b.get(2, 2).glyph, VERTICAL);
}

#[test]
fn overlapping_runs_cross() {
    let mut b = OverdrawBuffer::new(5, 1, 0, 0, true);
    b.draw_hline(0, 0, 3, HORIZONTAL);
    b.draw_hline(2, 0, 3, HORIZONTAL);
    assert_eq!(b.get(1, 0).glyph, HORIZONTAL);
    assert_eq!(b.get(2, 0).glyph, CROSSING);
    assert_eq!(b.get(3, 0).glyph, HORIZONTAL);
}

#[test]
fn route_bends_without_crossing_itself() {
    let d = Diagram::build(chain3()).unwrap();
    let b = d.render(ViewState { col_offset: 1, row_offset: 0 }, 80, 6);
    // route from column 1 into column 0: (47,2) (48,2) (48,1) (49,1), scrolled by 23
    assert_eq!(b.get(24, 2).glyph, HORIZONTAL);
    assert_eq!(b.get(25, 2).glyph, VERTICAL);
    assert_eq!(b.get(25, 1).glyph, HORIZONTAL);
    assert_eq!(b.get(26, 1).glyph, HORIZONTAL);
}

#[test]
fn routes_are_cut_at_edge() {
    let pts = vec![(0, 1), (5, 1), (5, 4), (9, 4)];
    assert_eq!(cut_route(&pts, 20), (pts.clone(), false));
    assert_eq!(cut_route(&pts, 7), (vec![(0, 1), (5, 1), (5, 4), (6, 4)], true));
    assert_eq!(cut_route(&pts, 3), (vec![(0, 1), (2, 1)], true));
    assert_eq!(cut_route(&pts, 0), (vec![], true));
}

#[test]
fn whole_columns_only() {
    assert_eq!(visible_column_count(&vec![23, 23, 24], 0, 56), 2);
    assert_eq!(visible_column_count(&vec![23, 23, 24], 0, 70), 3);
    assert_eq!(visible_column_count(&vec![23, 23, 24], 1, 47), 2);
    assert_eq!(visible_column_count(&vec![23, 23, 24], 0, 22), 0);
    assert_eq!(visible_column_count(&vec![23, 23, 24], 3, 100), 0);
}

#[test]
fn two_of_three_columns_render_with_marker() {
    let d = Diagram::build(chain3()).unwrap();
    let b = d.render(ViewState::new(), 60, 6);
    // boxes of the two leftmost columns (depths 2 and 1)
    assert_eq!(b.get(4, 0).kind, CellKind::Fill(2));
    assert_eq!(b.get(23, 2).kind, CellKind::Fill(2));
    assert_eq!(b.get(27, 0).kind, CellKind::Fill(2));
    assert_eq!(b.get(46, 2).kind, CellKind::Fill(2));
    // column 0 starts at x 50 and is not drawn
    for y in 0..6 {
        for x in 50..60 {
            assert_eq!(b.get(x, y).kind, CellKind::Blank);
        }
    }
    // the connection into the hidden column ends in a marker
    assert_eq!(b.get(49, 1).glyph, CONTINUES);
    assert_eq!(b.get(47, 2).glyph, HORIZONTAL);
    // the visible connection is drawn without one
    assert_eq!(b.get(26, 1).glyph, HORIZONTAL);
}

#[test]
fn scrolled_view_shows_last_columns() {
    let d = Diagram::build(chain3()).unwrap();
    let b = d.render(ViewState { col_offset: 1, row_offset: 0 }, 60, 6);
    // column 1 now starts at grid x 4, column 0 at grid x 27
    assert_eq!(b.get(4, 0).kind, CellKind::Fill(2));
    assert_eq!(b.get(27, 0).kind, CellKind::Fill(2));
    assert_eq!(b.get(26, 1).glyph, HORIZONTAL);
}

#[test]
fn scroll_is_clamped() {
    let mut s = Session::new(chain3()).unwrap();
    for _ in 0..5 {
        assert_eq!(s.handle_key(Key::Left, 60), Action::Redraw);
        assert_eq!(s.view().col_offset, 0);
    }
    for _ in 0..5 {
        s.handle_key(Key::Right, 60);
    }
    assert_eq!(s.view().col_offset, 2);
    s.handle_key(Key::Right, 60);
    assert_eq!(s.view().col_offset, 2);
    s.handle_key(Key::Up, 60);
    assert_eq!(s.view().row_offset, 0);
    for _ in 0..10 {
        s.handle_key(Key::Down, 60);
    }
    assert_eq!(s.view().row_offset, 4);
}

#[test]
fn other_keys_change_nothing() {
    let mut s = Session::new(chain3()).unwrap();
    s.handle_key(Key::Right, 60);
    assert_eq!(s.handle_key(Key::Other, 60), Action::Redraw);
    assert_eq!(s.view(), ViewState { col_offset: 1, row_offset: 0 });
}

#[test]
fn quit_ends_session() {
    let mut s = Session::new(chain3()).unwrap();
    s.handle_key(Key::Down, 60);
    assert_eq!(s.handle_key(Key::Quit, 60), Action::Quit);
    let mut v = ViewState::new();
    assert_eq!(v.handle_key(Key::Quit, 3, 3), Action::Quit);
    let frame = s.frame(30, 4);
    assert_eq!(frame.width(), 30);
    assert_eq!(frame.height(), 4);
}

#[test]
fn row_scroll_is_bounded_by_shown_columns() {
    let tall = Instance {
        id: 1,
        sockets: vec![Socket::Connection(2, 0), Socket::Value, Socket::Value, Socket::Value],
        y_hint: 0,
    };
    let g = NodeGraph::new(vec![tall, inst(2, &[3]), inst(3, &[])], vec![(1, 0)], vec![]).unwrap();
    let mut s = Session::new(g).unwrap();
    assert_eq!(s.diagram().clear_height(), 10);
    // at 60 cells only the two deeper columns show, each 4 rows tall
    for _ in 0..12 {
        s.handle_key(Key::Down, 60);
    }
    assert_eq!(s.view().row_offset, 4);
    // with every column shown, the tall column 0 sets the bound
    for _ in 0..12 {
        s.handle_key(Key::Down, 200);
    }
    assert_eq!(s.view().row_offset, 10);
}

#[test]
fn boundary_blocks_stand_at_outer_edges() {
    let d = Diagram::build(chain3()).unwrap();
    let b = d.render(ViewState::new(), 100, 6);
    // input block left of the deepest column, output block right of column 0
    assert_eq!(b.get(1, 0).kind, CellKind::Fill(1));
    assert_eq!(b.get(2, 3).kind, CellKind::Fill(1));
    assert_eq!(b.get(71, 0).kind, CellKind::Fill(1));
    assert_eq!(b.get(72, 3).kind, CellKind::Fill(1));
    assert_eq!(b.get(74, 0).kind, CellKind::Blank);
    // only two columns fit: no output block
    let b = d.render(ViewState::new(), 60, 6);
    assert_eq!(b.get(1, 0).kind, CellKind::Fill(1));
    for y in 0..6 {
        for x in 50..60 {
            assert_eq!(b.get(x, y).kind, CellKind::Blank);
        }
    }
}

#[test]
fn column_scroll_reclamps_rows() {
    // the deepest column (instance 3) is tall, columns 1 and 0 are short
    let tall = Instance { id: 3, sockets: vec![Socket::Value; 4], y_hint: 0 };
    let g = NodeGraph::new(vec![inst(1, &[2]), inst(2, &[3]), tall], vec![(1, 0)], vec![]).unwrap();
    let mut s = Session::new(g).unwrap();
    for _ in 0..12 {
        s.handle_key(Key::Down, 60);
    }
    assert_eq!(s.view().row_offset, 10);
    s.handle_key(Key::Right, 60);
    assert_eq!(s.view(), ViewState { col_offset: 1, row_offset: 4 });
    s.handle_key(Key::Left, 60);
    assert_eq!(s.view().row_offset, 4);
}
