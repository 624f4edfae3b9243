use bloom::graph::algorithms::{louvain, shortest_path};
use bloom::graph::types::{Edge, Graph, Node};

fn node(id: u32, label: &str) -> Node {
    Node {
        id,
        label: label.to_string(),
        pagerank_bits: 0,
        degree: 0,
        x_bits: 0,
        y_bits: 0,
    }
}

#[test]
fn lookup_by_id_and_index() {
    let nodes = vec![node(5, "a"), node(9, "b"), node(2, "c")];
    let edges = vec![Edge { source: 5, target: 9 }];
    let g = Graph::new(nodes, edges);
    assert_eq!(g.node_count(), 3);
    assert_eq!(g.edge_count(), 1);
    assert_eq!(g.node_index(5), Some(0));
    assert_eq!(g.node_index(9), Some(1));
    assert_eq!(g.node_index(2), Some(2));
    assert_eq!(g.node_index(77), None);
    assert_eq!(g.node_by_id(9).unwrap().label, "b");
    assert!(g.node_by_id(77).is_none());
}

#[test]
fn duplicate_ids_resolve_to_the_last_node() {
    let nodes = vec![node(1, "first"), node(1, "second")];
    let g = Graph::new(nodes, Vec::new());
    assert_eq!(g.node_index(1), Some(1));
    assert_eq!(g.node_by_id(1).unwrap().label, "second");
}

#[test]
fn neighbors_follow_edge_order_and_keep_duplicates() {
    let nodes = vec![node(1, ""), node(2, ""), node(3, "")];
    let edges = vec![
        Edge { source: 1, target: 2 },
        Edge { source: 3, target: 1 },
        Edge { source: 1, target: 2 },
        Edge { source: 2, target: 3 },
    ];
    let g = Graph::new(nodes, edges);
    assert_eq!(g.neighbors(1), vec![2, 3, 2]);
    assert_eq!(g.neighbors(2), vec![1, 1, 3]);
    assert_eq!(g.neighbors(77), Vec::<u32>::new());
}

#[test]
fn scalar_attributes_can_be_rewritten() {
    let nodes = vec![node(1, "")];
    let mut g = Graph::new(nodes, Vec::new());
    g.set_pagerank_bits(0, 0.75f32.to_bits());
    g.set_position_bits(0, 3.0f32.to_bits(), 4.0f32.to_bits());
    assert_eq!(f32::from_bits(g.nodes()[0].pagerank_bits), 0.75);
    assert_eq!(f32::from_bits(g.nodes()[0].x_bits), 3.0);
    assert_eq!(f32::from_bits(g.nodes()[0].y_bits), 4.0);
    assert_eq!(g.nodes()[0].id, 1);
}

#[test]
fn shortest_path_walks_a_three_node_chain() {
    // A(1) - B(2) - C(3), and a disconnected D(4)-E(5) component.
    let nodes = vec![node(1, "A"), node(2, "B"), node(3, "C"), node(4, "D"), node(5, "E")];
    let edges = vec![
        Edge { source: 1, target: 2 },
        Edge { source: 2, target: 3 },
        Edge { source: 4, target: 5 },
    ];
    let g = Graph::new(nodes, edges);
    assert_eq!(shortest_path(&g, 1, 3), Some(vec![0, 1, 2]));
    assert_eq!(shortest_path(&g, 1, 4), None);
    assert_eq!(shortest_path(&g, 1, 99), None);
    assert_eq!(shortest_path(&g, 99, 1), None);
    assert_eq!(shortest_path(&g, 2, 2), Some(vec![1]));
}

#[test]
fn shortest_path_prefers_the_short_route() {
    // 1-2-3-4 is the long way round; 1-5-4 is shorter.
    let nodes = vec![node(1, ""), node(2, ""), node(3, ""), node(4, ""), node(5, "")];
    let edges = vec![
        Edge { source: 1, target: 2 },
        Edge { source: 2, target: 3 },
        Edge { source: 3, target: 4 },
        Edge { source: 1, target: 5 },
        Edge { source: 5, target: 4 },
    ];
    let g = Graph::new(nodes, edges);
    let p = shortest_path(&g, 1, 4).unwrap();
    assert_eq!(p.len(), 3);
    assert_eq!(p, vec![0, 4, 3]);
}

#[test]
fn louvain_keeps_an_isolated_node_alone() {
    // a triangle plus one node touching no edge
    let nodes = vec![node(1, ""), node(2, ""), node(3, ""), node(4, "")];
    let edges = vec![
        Edge { source: 1, target: 2 },
        Edge { source: 2, target: 3 },
        Edge { source: 3, target: 1 },
    ];
    let g = Graph::new(nodes, edges);
    let c = louvain(&g);
    assert_eq!(c.len(), 4);
    assert_ne!(c[3], c[0]);
    assert_ne!(c[3], c[1]);
    assert_ne!(c[3], c[2]);
}

#[test]
fn louvain_labels_every_node() {
    // Two triangles joined by a single bridge edge.
    let nodes = vec![
        node(0, ""),
        node(1, ""),
        node(2, ""),
        node(3, ""),
        node(4, ""),
        node(5, ""),
    ];
    let edges = vec![
        Edge { source: 0, target: 1 },
        Edge { source: 1, target: 2 },
        Edge { source: 2, target: 0 },
        Edge { source: 3, target: 4 },
        Edge { source: 4, target: 5 },
        Edge { source: 5, target: 3 },
        Edge { source: 2, target: 3 },
    ];
    let g = Graph::new(nodes, edges);
    let c = louvain(&g);
    assert_eq!(c.len(), 6);
    for &x in &c {
        assert!(x < 6);
    }
    // the tight triangles end up together, split by the bridge
    assert_eq!(c[0], c[1]);
    assert_eq!(c[1], c[2]);
    assert_eq!(c[3], c[4]);
    assert_eq!(c[4], c[5]);
}

#[test]
fn louvain_degenerate_graphs_terminate() {
    let g = Graph::new(Vec::new(), Vec::new());
    assert_eq!(louvain(&g), Vec::<usize>::new());
    let g1 = Graph::new(vec![node(1, ""), node(2, "")], Vec::new());
    let c = louvain(&g1);
    assert_eq!(c.len(), 2);
    // isolated nodes stay in singleton communities
    assert_ne!(c[0], c[1]);
}
