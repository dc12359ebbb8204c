use station_graph::graph::{Graph, GraphEdge, GraphNode};
use station_graph::shortest_path::{dijkstra, distances_fit};

fn edge(from: GraphNode, to: GraphNode, distance: u32) -> GraphEdge<u32> {
    GraphEdge { from, to, distance }
}

#[test]
fn simplest_case() {
    let adjacent_matrix = vec![
        vec![None, Some(1u32), None],
        vec![Some(2u32), None, None],
        vec![Some(3u32), None, None],
    ];
    let values = vec!["1", "2", "3"];
    let graph = Graph::new(values, adjacent_matrix).unwrap();

    let node0 = graph.node(0);
    let node1 = graph.node(1);
    let node2 = graph.node(2);

    assert_eq!(
        dijkstra(&graph, node0, node1),
        Some(vec![GraphEdge {
            distance: 1u32,
            from: node0,
            to: node1
        }])
    );

    assert_eq!(
        dijkstra(&graph, node1, node0),
        Some(vec![GraphEdge {
            distance: 2u32,
            from: node1,
            to: node0
        }])
    );

    assert_eq!(dijkstra(&graph, node0, node0), Some(vec![]));

    assert_eq!(dijkstra(&graph, node0, node2), None);

    assert_eq!(
        dijkstra(&graph, node2, node1),
        Some(vec![
            GraphEdge {
                distance: 3u32,
                from: node2,
                to: node0
            },
            GraphEdge {
                distance: 1u32,
                from: node0,
                to: node1
            }
        ])
    );
}

#[test]
fn should_work() {
    let graph = Graph::new(vec!['a', 'b'], vec![vec![None, Some(1u32)], vec![Some(2u32), None]]).unwrap();
    let a = graph.node(0);
    let b = graph.node(1);
    assert_eq!(dijkstra(&graph, a, a), Some(vec![]));
    assert_eq!(dijkstra(&graph, a, b), Some(vec![edge(a, b, 1)]));
    assert_eq!(dijkstra(&graph, b, a), Some(vec![edge(b, a, 2)]));
}

#[test]
fn picks_the_lighter_of_two_routes() {
    // 0 -> 3 directly costs 10; 0 -> 1 -> 2 -> 3 costs 6.
    let matrix = vec![
        vec![None, Some(1u64), None, Some(10)],
        vec![None, None, Some(2), None],
        vec![None, None, None, Some(3)],
        vec![None, None, None, None],
    ];
    let graph = Graph::new(vec![0, 1, 2, 3], matrix).unwrap();
    let path = dijkstra(&graph, graph.node(0), graph.node(3)).unwrap();
    let nodes: Vec<usize> = path.iter().map(|e| e.to.index).collect();
    assert_eq!(nodes, vec![1, 2, 3]);
    let total: u64 = path.iter().map(|e| e.distance).sum();
    assert_eq!(total, 6);
    assert_eq!(dijkstra(&graph, graph.node(3), graph.node(0)), None);
}

#[test]
fn zero_weight_edges_are_followed() {
    let matrix = vec![
        vec![None, Some(0u32), Some(5)],
        vec![None, None, Some(0)],
        vec![None, None, None],
    ];
    let graph = Graph::new(vec![(); 3], matrix).unwrap();
    let path = dijkstra(&graph, graph.node(0), graph.node(2)).unwrap();
    assert_eq!(path.len(), 2);
    assert_eq!(path.iter().map(|e| e.distance).sum::<u32>(), 0);
}

#[test]
fn later_relaxation_replaces_queued_distance() {
    // Node 2 is first queued at distance 9 from node 0, then improved through node 1.
    let matrix = vec![
        vec![None, Some(2u8), Some(9)],
        vec![None, None, Some(3)],
        vec![None, None, None],
    ];
    let graph = Graph::new(vec!["p", "q", "r"], matrix).unwrap();
    let n0 = graph.node(0);
    let n1 = graph.node(1);
    let n2 = graph.node(2);
    let path = dijkstra(&graph, n0, n2).unwrap();
    assert_eq!(
        path,
        vec![
            GraphEdge { from: n0, to: n1, distance: 2u8 },
            GraphEdge { from: n1, to: n2, distance: 3u8 }
        ]
    );
}

#[test]
fn every_node_reaches_itself_with_no_edges() {
    let matrix = vec![vec![None, Some(4u16)], vec![None, None]];
    let graph = Graph::new(vec![1, 2], matrix).unwrap();
    for i in 0..graph.length() {
        assert_eq!(dijkstra(&graph, graph.node(i), graph.node(i)), Some(vec![]));
    }
}

#[test]
fn signed_distances_work() {
    let matrix = vec![
        vec![None, Some(5i32), Some(1)],
        vec![None, None, None],
        vec![None, Some(2), None],
    ];
    let graph = Graph::new(vec!["s", "t", "m"], matrix).unwrap();
    assert!(distances_fit(&graph));
    let path = dijkstra(&graph, graph.node(0), graph.node(1)).unwrap();
    assert_eq!(path.iter().map(|e| e.distance).sum::<i32>(), 3);
    assert_eq!(path.len(), 2);
}

#[test]
fn negative_or_oversized_weights_do_not_fit() {
    let negative = Graph::new(vec![1, 2], vec![vec![None, Some(-1i64)], vec![None, None]]).unwrap();
    assert!(!distances_fit(&negative));
    let large = Graph::new(vec![1, 2], vec![vec![None, Some(200u8)], vec![None, None]]).unwrap();
    assert!(!distances_fit(&large));
    let fine = Graph::new(vec![1, 2], vec![vec![None, Some(127u8)], vec![None, None]]).unwrap();
    assert!(distances_fit(&fine));
}

#[test]
fn finds_node_by_payload() {
    let matrix: Vec<Vec<Option<u32>>> = vec![vec![None; 3]; 3];
    let graph = Graph::new(vec!["north", "east", "east"], matrix).unwrap();
    assert_eq!(graph.find_node(|v: &&str| *v == "east"), Some(graph.node(1)));
    assert_eq!(graph.find_node(|v: &&str| *v == "west"), None);
}
