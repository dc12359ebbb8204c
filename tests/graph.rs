use station_graph::graph::{Graph, GraphEdge, GraphError, GraphNode};

fn edge(from: usize, to: usize, distance: u32) -> GraphEdge<u32> {
    GraphEdge {
        from: GraphNode { index: from },
        to: GraphNode { index: to },
        distance,
    }
}

#[test]
fn builds_edges_in_order() {
    let matrix = vec![
        vec![None, Some(4u32), Some(2)],
        vec![None, None, Some(7)],
        vec![Some(1), None, None],
    ];
    let graph = Graph::new(vec!["a", "b", "c"], matrix).unwrap();
    assert_eq!(graph.length(), 3);
    assert_eq!(*graph.value(graph.node(1)), "b");
    let out = graph.node(0).adjacent(&graph).nodes;
    assert_eq!(out, vec![edge(0, 1, 4), edge(0, 2, 2)]);
    let into = graph.node(2).reverse_adjacent(&graph).nodes;
    assert_eq!(into, vec![edge(0, 2, 2), edge(1, 2, 7)]);
    assert_eq!(graph.node(1).adjacent(&graph).nodes, vec![edge(1, 2, 7)]);
    assert_eq!(graph.node(0).reverse_adjacent(&graph).nodes, vec![edge(2, 0, 1)]);
}

#[test]
fn empty_graph_builds() {
    let graph = Graph::<u8, u64>::new(vec![], vec![]).unwrap();
    assert_eq!(graph.length(), 0);
}

#[test]
fn rejects_wrong_row_count() {
    let matrix: Vec<Vec<Option<u32>>> = vec![vec![None, Some(1)]];
    assert_eq!(Graph::new(vec![1, 2], matrix).err(), Some(GraphError::ShapeError));
}

#[test]
fn rejects_short_row() {
    let matrix: Vec<Vec<Option<u32>>> = vec![vec![None, Some(1)], vec![None]];
    assert_eq!(Graph::new(vec![1, 2], matrix).err(), Some(GraphError::ShapeError));
}

#[test]
fn rejects_self_loop() {
    let matrix: Vec<Vec<Option<u32>>> = vec![vec![None, Some(1)], vec![Some(2), Some(3)]];
    assert_eq!(Graph::new(vec![1, 2], matrix).err(), Some(GraphError::SelfLoopError));
}

#[test]
fn equal_payloads_stay_distinct_nodes() {
    let matrix = vec![vec![None, Some(1u64)], vec![None, None]];
    let graph = Graph::new(vec!["x", "x"], matrix).unwrap();
    assert_ne!(graph.node(0), graph.node(1));
    assert_eq!(graph.node(0).adjacent(&graph).nodes.len(), 1);
    assert_eq!(graph.node(1).adjacent(&graph).nodes.len(), 0);
}
