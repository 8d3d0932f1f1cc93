use logical_graph::Edge;
use logical_graph::GraphError;
use logical_graph::LogicalGraph;
use logical_graph::Port;

fn edge(id: usize, src: (usize, usize), tgt: (usize, usize)) -> Edge {
    Edge {
        id,
        source: Port::new(src.0, src.1),
        target: Port::new(tgt.0, tgt.1),
        scope_depth: 0,
        src_peers: 1,
        dst_peers: 1,
        is_local: true,
    }
}

#[test]
fn scenario_fan_out_two_inputs() {
    let edges = vec![edge(1, (0, 0), (1, 0)), edge(2, (0, 0), (1, 1))];
    let g = LogicalGraph::new(edges, 2).unwrap();
    assert_eq!(*g.get_out_edges(0).unwrap(), vec![vec![1usize, 2]]);
    assert_eq!(*g.get_in_edges(1).unwrap(), vec![1usize, 2]);
    assert_eq!(g.get_edge(1).unwrap().target, Port::new(1, 0));
    assert_eq!(g.get_edge(2).unwrap().target, Port::new(1, 1));
}

#[test]
fn scenario_empty_plan() {
    let g = LogicalGraph::new(Vec::new(), 0).unwrap();
    assert_eq!(g.vertex_size(), 0);
    assert!(g.get_edge(1).is_none());
    assert!(g.get_edge(0).is_none());
    assert!(g.edges().is_empty());
}

#[test]
fn scenario_reversed_supply_order() {
    let e2 = edge(2, (0, 1), (0, 1));
    let e1 = edge(1, (0, 0), (0, 0));
    let g = LogicalGraph::new(vec![e2, e1], 1).unwrap();
    let es = g.edges();
    assert_eq!(es.len(), 2);
    assert_eq!(es[0], e1);
    assert_eq!(es[1], e2);
    assert_eq!(es[0].id, 1);
    assert_eq!(es[1].id, 2);
}

#[test]
fn round_trip_every_id() {
    let supplied = vec![
        edge(3, (1, 0), (2, 0)),
        edge(1, (0, 0), (1, 0)),
        edge(2, (0, 1), (1, 1)),
    ];
    let g = LogicalGraph::new(supplied.clone(), 3).unwrap();
    for e in &supplied {
        assert_eq!(*g.get_edge(e.id).unwrap(), *e);
    }
    assert!(g.get_edge(0).is_none());
    assert!(g.get_edge(4).is_none());
}

#[test]
fn attributes_pass_through() {
    let mut e = edge(1, (0, 0), (1, 0));
    e.scope_depth = 7;
    e.src_peers = 4;
    e.dst_peers = 9;
    e.is_local = false;
    let g = LogicalGraph::new(vec![e], 2).unwrap();
    let back = g.get_edge(1).unwrap();
    assert_eq!(back.scope_depth, 7);
    assert_eq!(back.src_peers, 4);
    assert_eq!(back.dst_peers, 9);
    assert!(!back.is_local);
}

#[test]
fn gap_in_ids_rejected() {
    let r = LogicalGraph::new(vec![edge(1, (0, 0), (1, 0)), edge(3, (1, 0), (0, 0))], 2);
    assert_eq!(r.err().unwrap(), GraphError::NonContiguousIds);
}

#[test]
fn duplicate_id_rejected() {
    let r = LogicalGraph::new(vec![edge(1, (0, 0), (1, 0)), edge(1, (1, 0), (0, 0))], 2);
    assert_eq!(r.err().unwrap(), GraphError::NonContiguousIds);
}

#[test]
fn zero_id_rejected() {
    let r = LogicalGraph::new(vec![edge(0, (0, 0), (1, 0))], 2);
    assert_eq!(r.err().unwrap(), GraphError::NonContiguousIds);
}

#[test]
fn vertex_at_count_rejected() {
    let r = LogicalGraph::new(vec![edge(1, (0, 0), (2, 0))], 2);
    assert_eq!(r.err().unwrap(), GraphError::VertexOutOfRange);
}

#[test]
fn unwired_input_port_rejected() {
    // Port 1 of vertex 1 is targeted, so port 0 is declared but never wired.
    let r = LogicalGraph::new(vec![edge(1, (0, 0), (1, 1))], 2);
    assert_eq!(r.err().unwrap(), GraphError::UnwiredInputPort);
}

#[test]
fn unwired_output_port_rejected() {
    // Port 1 of vertex 0 is sourced, so port 0 is declared but never wired.
    let r = LogicalGraph::new(vec![edge(1, (0, 1), (1, 0))], 2);
    assert_eq!(r.err().unwrap(), GraphError::UnwiredOutputPort);
}

#[test]
fn vertex_size_reflects_targeted_vertices() {
    let edges = vec![
        edge(1, (0, 0), (1, 0)),
        edge(2, (1, 0), (2, 0)),
        edge(3, (2, 0), (3, 0)),
    ];
    let g = LogicalGraph::new(edges, 10).unwrap();
    // The incoming index knows vertices up to the largest targeted one, not
    // the declared count.
    assert_eq!(g.vertex_size(), 4);
    assert!(g.get_in_edges(0).unwrap().is_empty());
    assert_eq!(*g.get_in_edges(3).unwrap(), vec![3usize]);
    assert!(g.get_in_edges(4).is_none());
    assert!(g.get_out_edges(3).is_none());
}

#[test]
fn in_index_holds_unique_edge_per_port() {
    let edges = vec![
        edge(1, (0, 0), (1, 0)),
        edge(2, (0, 1), (1, 1)),
        edge(3, (1, 0), (0, 0)),
    ];
    let g = LogicalGraph::new(edges, 2).unwrap();
    assert_eq!(*g.get_in_edges(1).unwrap(), vec![1usize, 2]);
    assert_eq!(*g.get_in_edges(0).unwrap(), vec![3usize]);
}

#[test]
fn out_index_lists_fan_out_in_id_order() {
    // Supplied in reverse id order; the slot still lists ids ascending.
    let edges = vec![edge(2, (0, 0), (1, 1)), edge(1, (0, 0), (1, 0))];
    let g = LogicalGraph::new(edges, 2).unwrap();
    assert_eq!(*g.get_out_edges(0).unwrap(), vec![vec![1usize, 2]]);
    assert!(g.get_out_edges(1).is_none());
}

#[test]
fn shared_input_port_keeps_highest_id() {
    // Both edges end at the same input port; the slot keeps the later id.
    let edges = vec![edge(1, (0, 0), (1, 0)), edge(2, (0, 1), (1, 0))];
    let g = LogicalGraph::new(edges, 2).unwrap();
    assert_eq!(*g.get_in_edges(1).unwrap(), vec![2usize]);
}

#[test]
fn cycles_are_permitted() {
    let edges = vec![edge(1, (0, 0), (1, 0)), edge(2, (1, 0), (0, 0))];
    let g = LogicalGraph::new(edges, 2).unwrap();
    assert_eq!(g.vertex_size(), 2);
    assert_eq!(*g.get_in_edges(0).unwrap(), vec![2usize]);
    assert_eq!(*g.get_in_edges(1).unwrap(), vec![1usize]);
}

#[test]
fn default_values_are_placeholders() {
    let e = Edge::default();
    assert_eq!(e.id, 0);
    assert_eq!(e.source, Port::default());
    assert_eq!(e.target, Port::default());
    assert_eq!(e.scope_depth, 0);
    assert_eq!(e.src_peers, 1);
    assert_eq!(e.dst_peers, 1);
    assert!(e.is_local);
    assert_eq!(Port::default(), Port::new(0, 0));
    let g = LogicalGraph::default();
    assert_eq!(g.vertex_size(), 0);
    assert!(g.edges().is_empty());
}

#[test]
fn port_equality_is_by_both_fields() {
    assert_eq!(Port::new(3, 4), Port::new(3, 4));
    assert_ne!(Port::new(3, 4), Port::new(4, 3));
    assert_ne!(Port::new(3, 4), Port::new(3, 5));
}
