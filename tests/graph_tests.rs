use k_mst::graph::Graph;
use k_mst::tree::Tree;
use rand::{rngs::StdRng, Rng, SeedableRng};
use std::collections::HashMap;

fn setup_graph() -> Graph {
    let edges = vec![
        ("A".to_string(), "B".to_string(), 3),
        ("A".to_string(), "C".to_string(), 5),
        ("A".to_string(), "D".to_string(), 1),
        ("B".to_string(), "E".to_string(), 9),
        ("C".to_string(), "D".to_string(), 7),
        ("C".to_string(), "E".to_string(), 7),
        ("C".to_string(), "F".to_string(), 1),
        ("D".to_string(), "F".to_string(), 4),
    ];
    Graph::new(edges)
}

fn generate_tree(graph: &Graph, k: usize, random: &mut StdRng) -> Tree {
    let mut nodes = graph.get_nodes();
    let mut nodes_tree = vec![(String::new(), false); k];
    for i in 0..k {
        let size = nodes.len();
        let index = random.gen_range(0..size);
        nodes_tree[i] = (nodes.remove(index).clone(), false);
    }
    graph.generate_tree_by_nodes(k, &mut nodes_tree)
}

fn s(x: &str) -> String {
    x.to_string()
}

#[test]
fn test_graph_new_and_node_mapping() {
    let graph = setup_graph();
    assert_eq!(graph.get_num_nodes(), 6, "El grafo debe tener 6 nodos.");
    let nodes = graph.get_nodes();
    assert!(nodes.contains(&"A".to_string()));
    assert!(nodes.contains(&"D".to_string()));
}

#[test]
fn test_graph_edge_retrieval_and_floyd_adjustment() {
    let graph = setup_graph();
    let size = graph.get_num_nodes();
    let nodes_map: HashMap<String, usize> = graph.get_nodes().into_iter().zip(0..size).collect();
    println!("{:?}", nodes_map);

    let (distance_a_d, _) = graph.get_edge(&"A".to_string(), &"D".to_string());
    assert_eq!(distance_a_d, 1, "Distancia A-D ajustada debe ser 1.0.");

    let (distance_d_e, _) = graph.get_edge(&"D".to_string(), &"E".to_string());
    assert_eq!(distance_d_e, 144, "Distancia D-E ajustada debe ser 144.0.");
}

#[test]
fn test_graph_prim_mst_calculation() {
    let graph = setup_graph();
    let mut nodes_tree = vec![("A".to_string(), false), ("C".to_string(), false), ("D".to_string(), false)];
    let k = 3;

    let mut mst_edges = graph.prim(&mut nodes_tree, vec![], k);
    assert_eq!(mst_edges.len(), 2, "El MST debe tener k-1 aristas (2).");
    let costs: Vec<u64> = mst_edges.iter().map(|(_, _, w)| *w).collect();
    assert!(costs.contains(&5) && costs.contains(&1), "El MST debe contener los costos ajustados 5.0 y 1.0.");

    nodes_tree = vec![("A".to_string(), true), ("F".to_string(), true), ("E".to_string(), false)];
    mst_edges = graph.prim(&mut nodes_tree, vec![("A".to_string(), "F".to_string(), 60)], k);
    assert_eq!(mst_edges.len(), 2, "El MST debe tener k-1 aristas (2).");
    let costs: Vec<u64> = mst_edges.iter().map(|(_, _, w)| *w).collect();
    assert!(costs.contains(&60) && costs.contains(&96), "El MST debe contener los costos ajustados 60.0 y 96.0.");
}

#[test]
fn test_graph_generate_tree_deterministic() {
    let graph = setup_graph();
    let k = 2;
    let seed = 42 as u64;
    let mut rng = StdRng::seed_from_u64(seed);

    let tree: Tree = generate_tree(&graph, k, &mut rng);

    assert_eq!(tree.nodes.len(), k);
    assert_eq!(tree.edges.len(), 1);
    assert_eq!(tree.edges[0].2, 144, "El costo de la arista E-D debe ser el ajustado (144.0).");
}

#[test]
fn adjusted_matrix_is_symmetric() {
    let graph = setup_graph();
    let names = graph.get_nodes();
    for a in &names {
        for b in &names {
            assert_eq!(graph.get_edge(a, b), graph.get_edge(b, a));
        }
    }
    let n = graph.get_num_nodes();
    for i in 0..n {
        assert_eq!(graph.get_edge_index(i * n + i), (0, true));
    }
}

#[test]
fn original_edges_keep_their_weight() {
    let graph = setup_graph();
    assert_eq!(graph.get_edge(&s("B"), &s("E")), (9, true));
    assert_eq!(graph.get_edge(&s("E"), &s("B")), (9, true));
    assert_eq!(graph.get_edge(&s("C"), &s("F")), (1, true));
}

#[test]
fn missing_edges_get_distance_times_diameter() {
    let graph = setup_graph();
    assert_eq!(graph.get_diameter(), 12);
    // A-F: A-D-F = 5, B-D: B-A-D = 4, A-E: 12.
    assert_eq!(graph.get_edge(&s("A"), &s("F")), (60, false));
    assert_eq!(graph.get_edge(&s("B"), &s("D")), (48, false));
    assert_eq!(graph.get_edge(&s("A"), &s("E")), (144, false));
}

#[test]
fn unreachable_pairs_get_diameter_squared() {
    let edges = vec![(s("A"), s("B"), 2), (s("B"), s("C"), 3), (s("X"), s("Y"), 4)];
    let graph = Graph::new(edges);
    assert_eq!(graph.get_nodes(), vec![s("A"), s("B"), s("C"), s("X"), s("Y")]);
    assert_eq!(graph.get_diameter(), 5);
    assert_eq!(graph.get_edge(&s("A"), &s("C")), (25, false));
    assert_eq!(graph.get_edge(&s("A"), &s("X")), (25, false));
    assert_eq!(graph.get_edge(&s("Y"), &s("C")), (25, false));
}

#[test]
fn later_input_edge_overrides_earlier() {
    let edges = vec![(s("A"), s("B"), 2), (s("B"), s("A"), 7)];
    let graph = Graph::new(edges);
    assert_eq!(graph.get_edge(&s("A"), &s("B")), (7, true));
    assert_eq!(graph.get_diameter(), 7);
}

#[test]
fn empty_graph_has_no_nodes() {
    let graph = Graph::new(vec![]);
    assert_eq!(graph.get_num_nodes(), 0);
    assert_eq!(graph.get_diameter(), 0);
    assert!(graph.get_nodes().is_empty());
}

#[test]
fn prim_over_all_nodes_spans_them() {
    let graph = setup_graph();
    let mut nodes_tree: Vec<(String, bool)> = graph.get_nodes().into_iter().map(|n| (n, false)).collect();
    let mst = graph.prim(&mut nodes_tree, vec![], 6);
    assert_eq!(mst.len(), 5);
    assert!(nodes_tree.iter().all(|(_, marked)| *marked));
    let total: u64 = mst.iter().map(|(_, _, w)| *w).sum();
    // Minimum spanning tree of the original edges: 1 + 1 + 3 + 4 + 7.
    assert_eq!(total, 16);
}

#[test]
fn prim_stops_at_target_size() {
    let graph = setup_graph();
    let mut nodes_tree: Vec<(String, bool)> = graph.get_nodes().into_iter().map(|n| (n, false)).collect();
    let mst = graph.prim(&mut nodes_tree, vec![], 3);
    assert_eq!(mst.len(), 2);
    assert_eq!(mst[0], (s("A"), s("D"), 1));
    assert_eq!(mst[1], (s("A"), s("B"), 3));
}

#[test]
fn prim_marks_first_candidate_when_none_is() {
    let graph = setup_graph();
    let mut nodes_tree = vec![(s("E"), false), (s("D"), false)];
    let mst = graph.prim(&mut nodes_tree, vec![], 2);
    assert_eq!(mst, vec![(s("E"), s("D"), 144)]);
}

#[test]
fn generate_tree_by_nodes_for_e_and_d() {
    let graph = setup_graph();
    let mut nodes_tree = vec![(s("E"), false), (s("D"), false)];
    let tree = graph.generate_tree_by_nodes(2, &mut nodes_tree);
    assert_eq!(tree.edges.len(), 1);
    assert_eq!(tree.edges[0].2, 144);
    assert_eq!(tree.nodes.len(), 2);
}

#[test]
fn generate_tree_is_deterministic_for_a_seed() {
    let graph = setup_graph();
    let mut r1 = StdRng::seed_from_u64(7);
    let mut r2 = StdRng::seed_from_u64(7);
    let t1 = graph.generate_tree(4, &mut r1);
    let t2 = graph.generate_tree(4, &mut r2);
    assert_eq!(t1.nodes, t2.nodes);
    assert_eq!(t1.edges, t2.edges);
    assert_eq!(t1.nodes.len(), 4);
    assert_eq!(t1.edges.len(), 3);
    let mut sorted = t1.nodes.clone();
    sorted.sort();
    sorted.dedup();
    assert_eq!(sorted.len(), 4);
}

#[test]
fn long_paths_keep_their_full_length() {
    let w = 800_000_000u32;
    let edges = vec![(s("A"), s("B"), w), (s("B"), s("C"), w), (s("C"), s("D"), w), (s("D"), s("E"), w)];
    let graph = Graph::new(edges);
    let d = 4 * w as u64;
    assert_eq!(graph.get_diameter(), d);
    assert_eq!(graph.get_edge(&s("A"), &s("C")), (2 * w as u64 * d, false));
    assert_eq!(graph.get_edge(&s("A"), &s("E")), (d * d, false));
}
