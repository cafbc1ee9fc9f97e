use node_view::{
    compute_depths, connections, index_of, Diagram, GraphError, Instance, LayoutError, NodeGraph, Socket,
    NO_CONNECTION,
};

fn inst(id: usize, targets: &[usize], y: i64) -> Instance {
    Instance {
        id,
        sockets: targets.iter().map(|t| Socket::Connection(*t, 0)).collect(),
        y_hint: y,
    }
}

fn graph(instances: Vec<Instance>, outputs: Vec<(usize, usize)>) -> NodeGraph {
    NodeGraph::new(instances, outputs, vec![]).unwrap()
}

fn depth(d: &Diagram, id: usize) -> usize {
    d.depth_of(id).unwrap()
}

#[test]
fn single_chain_gives_two_columns() {
    // output boundary -> A -> B
    let g = graph(vec![inst(1, &[2], 0), inst(2, &[], 0)], vec![(1, 0)]);
    let d = Diagram::build(g).unwrap();
    assert_eq!(depth(&d, 1), 0);
    assert_eq!(depth(&d, 2), 1);
    assert_eq!(d.column_count(), 2);
    assert_eq!(d.column_ids(0), vec![1]);
    assert_eq!(d.column_ids(1), vec![2]);
}

#[test]
fn longest_path_decides_depth() {
    // X feeds on C directly and through Y -> Z -> C
    let g = graph(
        vec![inst(1, &[4, 2], 0), inst(2, &[3], 0), inst(3, &[4], 0), inst(4, &[], 0)],
        vec![(1, 0)],
    );
    let d = Diagram::build(g).unwrap();
    assert_eq!(depth(&d, 1), 0);
    assert_eq!(depth(&d, 2), 1);
    assert_eq!(depth(&d, 3), 2);
    assert_eq!(depth(&d, 4), 3);
    assert_eq!(d.column_count(), 4);
}

#[test]
fn unconnected_instance_has_depth_zero() {
    let g = graph(vec![inst(7, &[], 0), inst(8, &[], 0)], vec![(7, 0)]);
    let d = Diagram::build(g).unwrap();
    assert_eq!(depth(&d, 7), 0);
    assert_eq!(depth(&d, 8), 0);
    assert_eq!(d.column_count(), 1);
    assert_eq!(d.column_ids(0), vec![7, 8]);
}

#[test]
fn depth_is_one_more_than_deepest_consumer() {
    // 1 -> 3, 2 -> 4 -> 3: 3 is fed to 1 (depth 0) and 4 (depth 1)
    let g = graph(
        vec![inst(1, &[3], 0), inst(2, &[4], 0), inst(3, &[], 0), inst(4, &[3], 0)],
        vec![(1, 0), (2, 0)],
    );
    let depths = compute_depths(&g).unwrap();
    assert_eq!(depths, vec![0, 0, 2, 1]);
}

#[test]
fn columns_partition_instances() {
    let g = graph(
        vec![inst(10, &[30, 20], 5), inst(20, &[30], 0), inst(30, &[], 0), inst(40, &[30], -1)],
        vec![(10, 0)],
    );
    let d = Diagram::build(g).unwrap();
    let mut seen = vec![];
    for c in 0..d.column_count() {
        let ids = d.column_ids(c);
        assert!(!ids.is_empty());
        for id in ids {
            assert_eq!(depth(&d, id), c);
            seen.push(id);
        }
    }
    seen.sort();
    assert_eq!(seen, vec![10, 20, 30, 40]);
    // column 0 is ordered by stored y: 40 (y = -1) above 10 (y = 5)
    assert_eq!(d.column_ids(0), vec![40, 10]);
}

#[test]
fn equal_y_keeps_table_order() {
    let g = graph(vec![inst(3, &[], 2), inst(1, &[], 2), inst(2, &[], 1)], vec![]);
    let d = Diagram::build(g).unwrap();
    assert_eq!(d.column_ids(0), vec![2, 3, 1]);
}

#[test]
fn sentinel_connection_is_skipped() {
    let g = graph(vec![inst(1, &[NO_CONNECTION], 0)], vec![(1, 0), (NO_CONNECTION, 0)]);
    let d = Diagram::build(g).unwrap();
    assert_eq!(depth(&d, 1), 0);
    assert_eq!(d.depth_of(NO_CONNECTION), None);
    assert_eq!(d.column_count(), 1);
    assert_eq!(d.column_ids(0), vec![1]);
    assert_eq!(d.connection_count(), 0);
}

#[test]
fn reserved_id_is_rejected() {
    let r = NodeGraph::new(vec![inst(NO_CONNECTION, &[], 0)], vec![], vec![]);
    assert_eq!(r.err(), Some(GraphError::ReservedId));
}

#[test]
fn duplicate_id_is_rejected() {
    let r = NodeGraph::new(vec![inst(4, &[], 0), inst(4, &[], 1)], vec![], vec![]);
    assert_eq!(r.err(), Some(GraphError::DuplicateId(4)));
}

#[test]
fn unknown_target_is_rejected() {
    let r = NodeGraph::new(vec![inst(1, &[9], 0)], vec![], vec![]);
    assert_eq!(r.err(), Some(GraphError::UnknownTarget(9)));
    let r = NodeGraph::new(vec![inst(1, &[], 0)], vec![(5, 0)], vec![]);
    assert_eq!(r.err(), Some(GraphError::UnknownTarget(5)));
}

#[test]
fn cycle_is_reported() {
    let g = graph(vec![inst(1, &[2], 0), inst(2, &[1], 0)], vec![(1, 0)]);
    assert_eq!(compute_depths(&g).err(), Some(LayoutError::Cycle));
    let g = graph(vec![inst(1, &[1], 0)], vec![]);
    assert_eq!(Diagram::build(g).err(), Some(LayoutError::Cycle));
}

#[test]
fn empty_graph_has_no_columns() {
    let d = Diagram::build(graph(vec![], vec![])).unwrap();
    assert_eq!(d.column_count(), 0);
    assert_eq!(d.max_col_offset(), 0);
}

#[test]
fn connections_are_listed_in_table_order() {
    let instances = vec![
        Instance { id: 1, sockets: vec![Socket::Value, Socket::Connection(3, 2)], y_hint: 0 },
        inst(3, &[], 0),
    ];
    let conns = connections(&instances);
    assert_eq!(conns.len(), 1);
    assert_eq!(conns[0].consumer, 0);
    assert_eq!(conns[0].socket, 1);
    assert_eq!(conns[0].producer, 1);
    assert_eq!(conns[0].out_socket, 2);
    assert_eq!(index_of(&instances, 3), Some(1));
    assert_eq!(index_of(&instances, 2), None);
}

#[test]
fn gaps_and_positions_follow_lane_counts() {
    // A <- B <- C, one connection into each of columns 0 and 1
    let g = graph(vec![inst(1, &[2], 0), inst(2, &[3], 0), inst(3, &[], 0)], vec![(1, 0)]);
    let d = Diagram::build(g).unwrap();
    assert_eq!(d.column_x(2), 4);
    assert_eq!(d.column_x(1), 27);
    assert_eq!(d.column_x(0), 50);
    assert_eq!(d.column_widths(), vec![23, 23, 24]);
    assert_eq!(d.clear_height(), 4);
}

#[test]
fn skipping_connection_reserves_a_lane() {
    // 1 uses 2 and 3; 2 uses 3: the link 1 <- 3 skips column 1
    let g = graph(vec![inst(1, &[2, 3], 0), inst(2, &[3], 0), inst(3, &[], 0)], vec![(1, 0)]);
    let d = Diagram::build(g).unwrap();
    assert_eq!(depth(&d, 3), 2);
    // gap right of column 2: one lane in, one skipping, two margins
    assert_eq!(d.column_x(1) - d.column_x(2), 20 + 1 + 1 + 2);
    // gap right of column 1: two connections end in column 0
    assert_eq!(d.column_x(0) - d.column_x(1), 20 + 2 + 2);
}

#[test]
fn route_bends_in_its_lane() {
    let g = graph(vec![inst(1, &[2], 0), inst(2, &[], 0)], vec![(1, 0)]);
    let d = Diagram::build(g).unwrap();
    // producer 2 in column 1 at x 4, consumer 1 in column 0 at x 27
    assert_eq!(d.route(0), vec![(24, 2), (25, 2), (25, 1), (26, 1)]);
}

#[test]
fn skipping_route_runs_below_columns() {
    let g = graph(vec![inst(1, &[2, 3], 0), inst(2, &[3], 0), inst(3, &[], 0)], vec![(1, 0)]);
    let d = Diagram::build(g).unwrap();
    // connection 1 is 1 <- 3 (socket 1), which skips column 1
    let c = d.connection(1);
    assert_eq!((c.consumer, c.socket, c.producer), (0, 1, 2));
    let clear = d.clear_height() as i64;
    let x2 = d.column_x(2) as i64;
    let x1 = d.column_x(1) as i64;
    let x0 = d.column_x(0) as i64;
    let skip = x2 + 20 + 1 + 1;
    let lane = x1 + 20 + 1 + 1;
    assert_eq!(
        d.route(1),
        vec![(x2 + 20, 2), (skip, 2), (skip, clear), (lane, clear), (lane, 3), (x0 - 1, 3)]
    );
}

#[test]
fn boundary_runs_reach_the_markers() {
    let instances = vec![inst(1, &[2], 0), inst(2, &[3], 0), inst(3, &[], 0)];
    let g = NodeGraph::new(instances, vec![(1, 0), (NO_CONNECTION, 0)], vec![(2, 0), (NO_CONNECTION, 1)]).unwrap();
    let d = Diagram::build(g).unwrap();
    assert_eq!(d.output_count(), 2);
    assert_eq!(d.input_count(), 2);
    // instance 1 stands in column 0 at x 50; its output row is 2
    assert_eq!(d.output_route(0), Some(vec![(70, 2), (70, 2)]));
    assert_eq!(d.output_route(1), None);
    // instance 2 stands in column 1 at x 27; its first input row is 1
    assert_eq!(d.input_route(0), Some(vec![(3, 1), (26, 1)]));
    assert_eq!(d.input_route(1), None);
}

#[test]
fn skipping_routes_get_rows_of_their_own() {
    // 1 <- 3 and 4 <- 3 both skip column 1
    let g = graph(
        vec![inst(1, &[2, 3], 0), inst(2, &[3], 0), inst(4, &[3], 0), inst(3, &[], 0)],
        vec![(1, 0)],
    );
    let d = Diagram::build(g).unwrap();
    let clear = d.clear_height() as i64;
    let first = d.route(1);
    let second = d.route(3);
    assert_eq!(d.connection(1).producer, 3);
    assert_eq!(d.connection(3).producer, 3);
    assert_eq!(first.len(), 6);
    assert_eq!(second.len(), 6);
    assert_eq!(first[2].1, clear);
    assert_eq!(first[3].1, clear);
    assert_eq!(second[2].1, clear + 1);
    assert_eq!(second[3].1, clear + 1);
}
