use route_graph::{manhattan_distance, BuildError, Edge, Graph, Node, UNREACHABLE};

fn node(id: i32, x: i32, y: i32) -> Node {
    Node { id, x, y }
}

fn edge(a: i32, b: i32, w: i32) -> Edge {
    Edge { node_a_id: a, node_b_id: b, weight: w }
}

fn chain(first: i32, count: i32) -> (Vec<Node>, Vec<Edge>) {
    let nodes: Vec<Node> = (first..first + count).map(|i| node(i, i, 0)).collect();
    let edges: Vec<Edge> = (first..first + count - 1).map(|i| edge(i, i + 1, 1)).collect();
    (nodes, edges)
}

fn chain_graph() -> Graph {
    let (nodes, edges) = chain(0, 1000);
    Graph::build(&nodes, &edges).unwrap()
}

fn cost(r: &Option<(u64, Vec<i32>)>) -> Option<u64> {
    r.as_ref().map(|(c, _)| *c)
}

#[test]
fn triangle_prefers_direct_edge() {
    // Weights in thousandths: 1.414, 1.414 and 2.0.
    let nodes = vec![node(1, 0, 0), node(2, 1, 1), node(3, 2, 0)];
    let edges = vec![edge(1, 2, 1414), edge(2, 3, 1414), edge(1, 3, 2000)];
    let g = Graph::build(&nodes, &edges).unwrap();
    assert_eq!(g.shortest_path(1, 3), Some((2000, vec![1, 3])));
}

#[test]
fn long_chain_cost() {
    let g = chain_graph();
    let r = g.shortest_path(0, 999);
    assert_eq!(cost(&r), Some(999));
    let path = r.unwrap().1;
    assert_eq!(path, (0..1000).collect::<Vec<i32>>());
}

#[test]
fn disconnected_chains_have_no_route() {
    let (mut nodes, mut edges) = chain(0, 10);
    let (n2, e2) = chain(100, 10);
    nodes.extend(n2);
    edges.extend(e2);
    let g = Graph::build(&nodes, &edges).unwrap();
    assert_eq!(g.shortest_path(0, 105), None);
    assert_eq!(g.shortest_path(109, 3), None);
    assert_eq!(cost(&g.shortest_path(100, 109)), Some(9));
    assert_eq!(cost(&g.shortest_path(2, 7)), Some(5));
}

#[test]
fn batch_keeps_input_order() {
    let g = chain_graph();
    let pairs = vec![(0, 999), (0, 500), (250, 750), (100, 900)];
    let r = g.shortest_paths(&pairs);
    let costs: Vec<Option<u64>> = r.iter().map(cost).collect();
    assert_eq!(costs, vec![Some(999), Some(500), Some(500), Some(800)]);
}

#[test]
fn batch_equals_single_queries() {
    let nodes = vec![node(1, 0, 0), node(2, 1, 1), node(3, 2, 0), node(4, 9, 9)];
    let edges = vec![edge(1, 2, 3), edge(2, 3, 4), edge(1, 3, 9)];
    let g = Graph::build(&nodes, &edges).unwrap();
    let pairs = vec![(1, 3), (3, 1), (2, 2), (1, 4), (7, 1), (2, 3)];
    let batch = g.shortest_paths(&pairs);
    assert_eq!(batch.len(), pairs.len());
    for (i, (a, b)) in pairs.iter().enumerate() {
        assert_eq!(batch[i], g.shortest_path(*a, *b));
    }
}

#[test]
fn self_route_is_the_node_alone() {
    let g = chain_graph();
    assert_eq!(g.shortest_path(42, 42), Some((0, vec![42])));
    let lone = Graph::build(&vec![node(5, 1, 1)], &vec![]).unwrap();
    assert_eq!(lone.shortest_path(5, 5), Some((0, vec![5])));
}

#[test]
fn unknown_nodes_give_none() {
    let g = chain_graph();
    assert_eq!(g.shortest_path(-1, 5), None);
    assert_eq!(g.shortest_path(5, 1000), None);
    assert_eq!(g.shortest_path(2000, 2000), None);
    assert_eq!(Graph::new().shortest_path(0, 0), None);
}

#[test]
fn costs_are_symmetric() {
    let nodes = vec![node(1, 0, 0), node(2, 0, 5), node(3, 5, 5), node(4, 5, 0), node(5, 9, 9)];
    let edges = vec![edge(1, 2, 5), edge(2, 3, 5), edge(3, 4, 5), edge(4, 1, 20), edge(1, 3, 12)];
    let g = Graph::build(&nodes, &edges).unwrap();
    for a in 1..=5 {
        for b in 1..=5 {
            assert_eq!(cost(&g.shortest_path(a, b)), cost(&g.shortest_path(b, a)));
        }
    }
    assert_eq!(cost(&g.shortest_path(1, 4)), Some(15));
    assert_eq!(g.shortest_path(1, 5), None);
}

#[test]
fn optimal_cost_on_hand_built_graph() {
    // 1 -> 4 directly costs 10; 1 -> 2 -> 3 -> 4 costs 2 + 2 + 3 = 7;
    // 1 -> 5 -> 4 costs 1 + 7 = 8.
    let nodes = vec![node(1, 0, 0), node(2, 1, 0), node(3, 2, 0), node(4, 3, 0), node(5, 1, 1)];
    let edges = vec![
        edge(1, 4, 10),
        edge(1, 2, 2),
        edge(2, 3, 2),
        edge(3, 4, 3),
        edge(1, 5, 1),
        edge(5, 4, 7),
    ];
    let g = Graph::build(&nodes, &edges).unwrap();
    assert_eq!(g.shortest_path(1, 4), Some((7, vec![1, 2, 3, 4])));
    assert_eq!(g.shortest_path(4, 1), Some((7, vec![4, 3, 2, 1])));
    assert_eq!(cost(&g.shortest_path(5, 3)), Some(5));
}

#[test]
fn heuristic_does_not_change_costs() {
    // A grid whose edge weights are at least the Manhattan distance.
    let mut nodes = Vec::new();
    let mut edges = Vec::new();
    for y in 0..6 {
        for x in 0..6 {
            nodes.push(node(y * 6 + x, x * 10, y * 10));
            if x > 0 {
                edges.push(edge(y * 6 + x - 1, y * 6 + x, 10 + (x * y) % 7));
            }
            if y > 0 {
                edges.push(edge((y - 1) * 6 + x, y * 6 + x, 10 + (x + 2 * y) % 5));
            }
        }
    }
    let plain = Graph::build(&nodes, &edges).unwrap();
    let mut guided = Graph::build(&nodes, &edges).unwrap();
    assert!(!guided.uses_heuristic());
    guided.set_heuristic(true);
    assert!(guided.uses_heuristic());
    for a in 0..36 {
        for b in 0..36 {
            let p = plain.shortest_path(a, b);
            let q = guided.shortest_path(a, b);
            assert_eq!(cost(&p), cost(&q));
            assert!(q.is_some());
        }
    }
    assert_eq!(cost(&guided.shortest_path(0, 35)), cost(&plain.shortest_path(0, 35)));
}

#[test]
fn short_edge_turns_heuristic_off() {
    // The edge 1-2 is shorter than the Manhattan distance (2) between its ends.
    let nodes = vec![node(1, 0, 0), node(2, 1, 1), node(3, 2, 0)];
    let edges = vec![edge(1, 2, 1), edge(2, 3, 1), edge(1, 3, 5)];
    let mut g = Graph::build(&nodes, &edges).unwrap();
    g.set_heuristic(true);
    assert!(!g.uses_heuristic());
    assert_eq!(g.shortest_path(1, 3), Some((2, vec![1, 2, 3])));
}

#[test]
fn heuristic_off_again() {
    let nodes = vec![node(1, 0, 0), node(2, 3, 4)];
    let edges = vec![edge(1, 2, 7)];
    let mut g = Graph::build(&nodes, &edges).unwrap();
    g.set_heuristic(true);
    assert!(g.uses_heuristic());
    g.set_heuristic(false);
    assert!(!g.uses_heuristic());
    assert_eq!(g.shortest_path(2, 1), Some((7, vec![2, 1])));
}

#[test]
fn duplicate_node_is_refused() {
    let mut g = Graph::new();
    assert_eq!(g.add_node(node(1, 0, 0)), Ok(()));
    assert_eq!(g.add_node(node(1, 5, 5)), Err(BuildError::DuplicateNode));
    assert_eq!(g.get_node(1), Some(node(1, 0, 0)));
    assert_eq!(g.node_count(), 1);
    let r = Graph::build(&vec![node(1, 0, 0), node(2, 0, 0), node(1, 1, 1)], &vec![]);
    assert_eq!(r.err(), Some(BuildError::DuplicateNode));
}

#[test]
fn unknown_endpoint_is_refused() {
    let mut g = Graph::new();
    g.add_node(node(1, 0, 0)).unwrap();
    assert_eq!(g.add_edge(edge(1, 2, 3)), Err(BuildError::UnknownNode));
    assert_eq!(g.add_edge(edge(2, 1, 3)), Err(BuildError::UnknownNode));
    assert_eq!(g.get_edges(1), Some(vec![]));
    let r = Graph::build(&vec![node(1, 0, 0)], &vec![edge(1, 9, 1)]);
    assert_eq!(r.err(), Some(BuildError::UnknownNode));
}

#[test]
fn negative_weight_is_refused() {
    let mut g = Graph::new();
    g.add_node(node(1, 0, 0)).unwrap();
    g.add_node(node(2, 0, 0)).unwrap();
    assert_eq!(g.add_edge(edge(1, 2, -1)), Err(BuildError::NegativeWeight));
    assert_eq!(g.get_edges(1), Some(vec![]));
    // An unknown endpoint is reported before a negative weight.
    assert_eq!(g.add_edge(edge(1, 3, -1)), Err(BuildError::UnknownNode));
    let r = Graph::build(&vec![node(1, 0, 0), node(2, 0, 0)], &vec![edge(1, 2, -5)]);
    assert_eq!(r.err(), Some(BuildError::NegativeWeight));
}

#[test]
fn build_reports_first_faulty_edge() {
    let nodes = vec![node(1, 0, 0), node(2, 0, 0)];
    let r = Graph::build(&nodes, &vec![edge(1, 2, 1), edge(1, 2, -1), edge(1, 7, 1)]);
    assert_eq!(r.err(), Some(BuildError::NegativeWeight));
    let r = Graph::build(&nodes, &vec![edge(1, 7, 1), edge(1, 2, -1)]);
    assert_eq!(r.err(), Some(BuildError::UnknownNode));
}

#[test]
fn edges_are_stored_both_ways() {
    let mut g = Graph::new();
    g.add_node(node(10, 0, 0)).unwrap();
    g.add_node(node(20, 3, 4)).unwrap();
    assert_eq!(g.add_edge(edge(10, 20, 6)), Ok(()));
    assert_eq!(g.get_edges(10), Some(vec![edge(10, 20, 6)]));
    assert_eq!(g.get_edges(20), Some(vec![edge(20, 10, 6)]));
    assert_eq!(g.get_edges(30), None);
    assert_eq!(g.get_node(20), Some(node(20, 3, 4)));
    assert_eq!(g.get_node(30), None);
    assert_eq!(g.shortest_path(20, 10), Some((6, vec![20, 10])));
}

#[test]
fn lightest_parallel_edge_wins() {
    let nodes = vec![node(1, 0, 0), node(2, 0, 0)];
    let edges = vec![edge(1, 2, 9), edge(2, 1, 4), edge(1, 2, 6)];
    let g = Graph::build(&nodes, &edges).unwrap();
    assert_eq!(g.get_edges(1).unwrap().len(), 3);
    assert_eq!(g.shortest_path(1, 2), Some((4, vec![1, 2])));
}

#[test]
fn loops_and_zero_weights() {
    let nodes = vec![node(1, 0, 0), node(2, 0, 0), node(3, 0, 0)];
    let edges = vec![edge(1, 1, 0), edge(1, 2, 0), edge(2, 3, 0), edge(1, 3, 1)];
    let g = Graph::build(&nodes, &edges).unwrap();
    assert_eq!(g.get_edges(1).unwrap().len(), 4);
    assert_eq!(g.shortest_path(1, 3), Some((0, vec![1, 2, 3])));
    assert_eq!(g.shortest_path(1, 1), Some((0, vec![1])));
}

#[test]
fn large_weights_add_without_overflow() {
    let nodes = vec![node(1, 0, 0), node(2, 0, 0), node(3, 0, 0)];
    let edges = vec![edge(1, 2, i32::MAX), edge(2, 3, i32::MAX)];
    let g = Graph::build(&nodes, &edges).unwrap();
    let expected = 2 * (i32::MAX as u64);
    assert_eq!(g.shortest_path(1, 3), Some((expected, vec![1, 2, 3])));
    assert!(expected < UNREACHABLE);
}

#[test]
fn manhattan_distance_values() {
    assert_eq!(manhattan_distance(&node(1, 0, 0), &node(2, 3, -4)), 7);
    assert_eq!(manhattan_distance(&node(1, -2, 5), &node(2, -2, 5)), 0);
    let far = manhattan_distance(&node(1, i32::MIN, i32::MIN), &node(2, i32::MAX, i32::MAX));
    assert_eq!(far, 2 * (u32::MAX as u64));
}

#[test]
fn node_records_keep_insertion_order() {
    let g = Graph::build(&vec![node(7, 1, 2), node(3, 4, 5)], &vec![edge(7, 3, 2)]).unwrap();
    assert_eq!(g.node_count(), 2);
    assert_eq!(g.index_for(7), Some(0));
    assert_eq!(g.index_for(3), Some(1));
    assert_eq!(g.index_for(8), None);
    assert_eq!(*g.node_at(1), node(3, 4, 5));
    assert_eq!(g.links_at(0).len(), 1);
    assert_eq!(g.links_at(0)[0].to, 1);
}
