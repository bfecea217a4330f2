use k_mst::graph::Graph;
use k_mst::tree::{Tree, TreeCost};

fn s(x: &str) -> String {
    x.to_string()
}

fn setup_graph_for_tree() -> Graph {
    let edges = vec![
        ("A".to_string(), "B".to_string(), 3),
        ("A".to_string(), "C".to_string(), 5),
        ("A".to_string(), "D".to_string(), 1),
        ("B".to_string(), "E".to_string(), 9),
        ("C".to_string(), "D".to_string(), 7),
        ("C".to_string(), "E".to_string(), 7),
        ("C".to_string(), "F".to_string(), 1),
        ("D".to_string(), "F".to_string(), 4),
    ];
    Graph::new(edges)
}

fn setup_initial_tree(k: usize) -> Tree {
    let nodes: Vec<String> = vec!["A", "B", "C"].into_iter().map(String::from).collect();
    let edges = vec![("A".to_string(), "B".to_string(), 3), ("B".to_string(), "C".to_string(), 5)];
    Tree::new(edges, nodes, k)
}

fn value(c: TreeCost) -> f64 {
    c.sum as f64 / c.normalize as f64
}

#[test]
fn test_tree_get_normalize_max_k_minus_one_edges() {
    let graph = setup_graph_for_tree();
    let mut tree = setup_initial_tree(3);

    // The two largest original weights: 9 and 7.
    let normalize_factor = tree.get_normalize(&graph);

    assert_eq!(normalize_factor, 16, "El factor de normalización debe ser la suma de los 2 pesos más grandes (9 + 7).");
    assert_eq!(tree.normalize, Some(16), "El factor de normalización debe estar cacheado.");
}

#[test]
fn test_tree_get_cost() {
    let graph = setup_graph_for_tree();
    let mut tree = setup_initial_tree(3);

    let expected_cost = 8.0 / 16.0;
    let cost = tree.get_cost(&graph);

    assert!((value(cost) - expected_cost).abs() < 1e-4, "El costo total del árbol debe ser 0.5.");
    assert_eq!(cost, TreeCost { sum: 8, normalize: 16 });
    assert_eq!(tree.normalize, Some(16), "El factor de normalización debe estar cacheado en 16.");
    assert_eq!(tree.total_cost, Some(cost), "El costo total debe estar cacheado.");
}

#[test]
fn test_tree_neighbor_and_recover_solution() {
    let graph = setup_graph_for_tree();
    let mut tree = setup_initial_tree(3);

    let new_node = "D".to_string();
    let remove_node = "A".to_string();

    tree.get_normalize(&graph);

    // The kept edge B-C(5) is completed by C-D(7): 12 / 16.
    let neighbor_result = tree.get_neighbor(&graph, &new_node, &remove_node);
    assert!(neighbor_result.is_ok());
    let neighbor = neighbor_result.unwrap();

    let expected_cost = 12.0 / 16.0;
    assert_eq!(neighbor.new_node, "D".to_string());
    assert_eq!(neighbor.remove_node, "A".to_string());
    assert!((value(neighbor.cost) - expected_cost).abs() < 1e-4);

    let recovered = tree.recover_solution();
    assert!(recovered, "La recuperación debe ser exitosa.");

    assert!(!tree.nodes.contains(&"A".to_string()), "El nodo 'A' debe haber sido removido.");
    assert!(tree.nodes.contains(&"D".to_string()), "El nodo 'D' debe haber sido añadido.");
    assert!((value(tree.total_cost.unwrap()) - expected_cost).abs() < 1e-4, "El costo total debe actualizarse.");
    assert_eq!(tree.edges.len(), 2, "El nuevo árbol debe tener 2 aristas.");
}

#[test]
fn normalize_for_k3_is_sixteen() {
    let graph = setup_graph_for_tree();
    let mut tree = Tree::new(vec![], vec![s("A"), s("C"), s("D")], 3);
    assert_eq!(tree.get_normalize(&graph), 16);
}

#[test]
fn normalize_sums_all_when_fewer_edges() {
    let graph = setup_graph_for_tree();
    let mut tree = Tree::new(vec![], vec![], 20);
    // 3 + 5 + 1 + 9 + 7 + 7 + 1 + 4
    assert_eq!(tree.get_normalize(&graph), 37);
    let mut single = Tree::new(vec![], vec![s("A")], 1);
    assert_eq!(single.get_normalize(&graph), 0);
}

#[test]
fn cached_normalize_is_returned_as_is() {
    let graph = setup_graph_for_tree();
    let mut tree = setup_initial_tree(3);
    tree.normalize = Some(99);
    assert_eq!(tree.get_normalize(&graph), 99);
}

#[test]
fn get_cost_twice_returns_the_cached_value() {
    let graph = setup_graph_for_tree();
    let mut tree = setup_initial_tree(3);
    let first = tree.get_cost(&graph);
    tree.edges.push((s("C"), s("D"), 7));
    let second = tree.get_cost(&graph);
    assert_eq!(first, second);
    assert_eq!(second, TreeCost { sum: 8, normalize: 16 });
}

#[test]
fn get_cost_raw_does_not_cache_the_cost() {
    let graph = setup_graph_for_tree();
    let mut tree = setup_initial_tree(3);
    let edges = vec![(s("A"), s("D"), 1), (s("C"), s("F"), 1)];
    let c = tree.get_cost_raw(&graph, &edges);
    assert_eq!(c, TreeCost { sum: 2, normalize: 16 });
    assert_eq!(tree.total_cost, None);
}

#[test]
fn recover_without_neighbour_fails_and_changes_nothing() {
    let mut tree = setup_initial_tree(3);
    let nodes = tree.nodes.clone();
    let edges = tree.edges.clone();
    assert!(!tree.recover_solution());
    assert_eq!(tree.nodes, nodes);
    assert_eq!(tree.edges, edges);
    assert_eq!(tree.total_cost, None);
    assert!(!tree.recover_solution());
}

#[test]
fn recover_twice_fails_the_second_time() {
    let graph = setup_graph_for_tree();
    let mut tree = setup_initial_tree(3);
    assert!(tree.get_neighbor(&graph, &s("D"), &s("A")).is_ok());
    assert!(tree.recover_solution());
    assert!(!tree.recover_solution());
}

#[test]
fn neighbour_with_present_node_fails() {
    let graph = setup_graph_for_tree();
    let mut tree = setup_initial_tree(3);
    assert!(tree.get_neighbor(&graph, &s("B"), &s("A")).is_err());
    assert!(tree.neighbors.is_none());
}

#[test]
fn cached_neighbour_is_returned_again() {
    let graph = setup_graph_for_tree();
    let mut tree = setup_initial_tree(3);
    let first = tree.get_neighbor(&graph, &s("D"), &s("A")).unwrap();
    let second = tree.get_neighbor(&graph, &s("D"), &s("A")).unwrap();
    assert_eq!(first.edges, second.edges);
    assert_eq!(first.cost, second.cost);
    tree.clear_neighbour();
    assert!(tree.neighbors.is_none());
    assert!(!tree.recover_solution());
}

#[test]
fn new_tree_drops_repeated_nodes() {
    let tree = Tree::new(vec![], vec![s("A"), s("B"), s("A")], 2);
    assert_eq!(tree.nodes, vec![s("A"), s("B")]);
    assert_eq!(tree.get_edges(), Vec::<(String, String, u64)>::new());
}

#[test]
fn connected_tree_of_original_edges_is_valid() {
    let graph = setup_graph_for_tree();
    let tree = Tree::new(
        vec![(s("A"), s("D"), 1), (s("D"), s("F"), 4), (s("F"), s("C"), 1)],
        vec![s("A"), s("C"), s("D"), s("F")],
        4,
    );
    assert!(tree.is_connected(&graph));
}

#[test]
fn invalid_trees_are_rejected() {
    let graph = setup_graph_for_tree();
    // B-C is not an original edge.
    let t1 = setup_initial_tree(3);
    assert!(!t1.is_connected(&graph));
    // Wrong number of edges.
    let t2 = Tree::new(vec![(s("A"), s("D"), 1)], vec![s("A"), s("C"), s("D")], 3);
    assert!(!t2.is_connected(&graph));
    // Two components: A-D and C-F, plus a repeated edge.
    let t3 = Tree::new(
        vec![(s("A"), s("D"), 1), (s("C"), s("F"), 1), (s("A"), s("D"), 1)],
        vec![s("A"), s("C"), s("D"), s("F")],
        4,
    );
    assert!(!t3.is_connected(&graph));
    // An edge leaving the node set.
    let t4 = Tree::new(vec![(s("A"), s("B"), 3)], vec![s("A"), s("D")], 2);
    assert!(!t4.is_connected(&graph));
}

#[test]
fn trivial_trees() {
    let graph = setup_graph_for_tree();
    assert!(Tree::new(vec![], vec![], 0).is_connected(&graph));
    assert!(Tree::new(vec![], vec![s("A")], 1).is_connected(&graph));
    assert!(!Tree::new(vec![], vec![s("A"), s("B")], 1).is_connected(&graph));
}

#[test]
fn built_tree_with_real_edges_is_valid() {
    let graph = setup_graph_for_tree();
    let mut nodes_tree = vec![(s("A"), false), (s("C"), false), (s("D"), false)];
    let tree = graph.generate_tree_by_nodes(3, &mut nodes_tree);
    assert!(tree.is_connected(&graph));
    let copy = tree.copy();
    assert_eq!(copy.nodes, tree.nodes);
    assert_eq!(copy.edges, tree.edges);
}

#[test]
fn one_node_tree_costs_zero() {
    let graph = setup_graph_for_tree();
    let mut tree = Tree::new(vec![], vec![s("A")], 1);
    let c = tree.get_cost(&graph);
    assert_eq!(c, TreeCost { sum: 0, normalize: 0 });
    let positive = TreeCost { sum: 1, normalize: 16 };
    assert!(c.less_than(&positive));
    assert!(!positive.less_than(&c));
    assert!(!c.less_than(&TreeCost { sum: 0, normalize: 5 }));
}

#[test]
fn costs_compare_as_fractions() {
    let a = TreeCost { sum: 8, normalize: 16 };
    let b = TreeCost { sum: 12, normalize: 16 };
    let c = TreeCost { sum: 1, normalize: 2 };
    assert!(a.less_than(&b));
    assert!(!b.less_than(&a));
    assert!(!a.less_than(&c));
    assert!(!c.less_than(&a));
    let big = TreeCost { sum: u128::MAX, normalize: u128::MAX - 1 };
    let bigger = TreeCost { sum: u128::MAX, normalize: u128::MAX - 2 };
    assert!(big.less_than(&bigger));
    assert!(!bigger.less_than(&big));
}

#[test]
fn repeated_nodes_are_not_a_valid_tree() {
    let graph = setup_graph_for_tree();
    let mut tree = Tree::new(vec![(s("A"), s("D"), 1), (s("A"), s("D"), 1)], vec![s("A"), s("D"), s("F")], 3);
    tree.nodes = vec![s("A"), s("A"), s("D")];
    assert!(!tree.is_connected(&graph));
}
