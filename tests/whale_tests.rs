use k_mst::graph::Graph;
use k_mst::tree::{Tree, TreeCost};
use k_mst::whale::Whale;
use rand::{rngs::StdRng, SeedableRng};

fn s(x: &str) -> String {
    x.to_string()
}

fn setup_graph() -> Graph {
    let edges = vec![
        (s("A"), s("B"), 3),
        (s("A"), s("C"), 5),
        (s("A"), s("D"), 1),
        (s("B"), s("E"), 9),
        (s("C"), s("D"), 7),
        (s("C"), s("E"), 7),
        (s("C"), s("F"), 1),
        (s("D"), s("F"), 4),
    ];
    Graph::new(edges)
}

#[test]
fn whale_from_selection() {
    let graph = setup_graph();
    // A, C, D by index.
    let mut w = Whale::new(&graph, &vec![0, 2, 3], 3);
    assert_eq!(w.get_len_position(), 6);
    assert_eq!(w.get_node(0), (s("A"), true));
    assert_eq!(w.get_node(1), (s("B"), false));
    assert_eq!(w.get_node(3), (s("D"), true));
    assert_eq!(w.get_tree().len(), 2);
    assert_eq!(w.cost, TreeCost { sum: 6, normalize: 16 });
    assert_eq!(w.get_cost(&graph), w.cost);
    assert!(w.get_tree_struct().is_connected(&graph));
}

#[test]
fn index_draws_respect_membership() {
    let graph = setup_graph();
    let w = Whale::new(&graph, &vec![0, 2, 3], 3);
    let mut rng = StdRng::seed_from_u64(3);
    for _ in 0..50 {
        let i = w.get_index_node_in_tree(&mut rng);
        assert!(w.get_node(i).1);
        let j = w.get_index_node_nin_tree(&mut rng);
        assert!(!w.get_node(j).1);
    }
}

#[test]
fn index_in_other_tree() {
    let graph = setup_graph();
    let w = Whale::new(&graph, &vec![0, 2, 3], 3);
    let other = Tree::new(vec![], vec![s("A"), s("D"), s("B")], 3);
    let mut rng = StdRng::seed_from_u64(11);
    for _ in 0..20 {
        let i = w.get_index_node_in_other_tree(&mut rng, &other);
        assert_eq!(w.get_node(i).0, s("C"));
    }
    let same = Tree::new(vec![], vec![s("A"), s("C"), s("D")], 3);
    for _ in 0..20 {
        let i = w.get_index_node_in_other_tree(&mut rng, &same);
        assert!(w.get_node(i).1);
    }
}

#[test]
fn swap_moves_a_node_into_the_tree() {
    let graph = setup_graph();
    let mut w = Whale::new(&graph, &vec![0, 2, 3], 3);
    // Add F (index 5), remove A (index 0).
    w.set_node(0, false);
    w.set_node(5, true);
    assert!(w.swap_nodes(&graph, 5, 0));
    let t = w.get_tree_struct();
    assert!(t.nodes.contains(&s("F")));
    assert!(!t.nodes.contains(&s("A")));
    // Both edges touch A, so Prim rebuilds from C: C-F(1), then F-D(4).
    assert_eq!(w.cost, TreeCost { sum: 5, normalize: 16 });
    assert!(t.is_connected(&graph));
    // A node already in the tree changes nothing.
    assert!(!w.swap_nodes(&graph, 2, 3));
    assert_eq!(w.cost, TreeCost { sum: 5, normalize: 16 });
}

#[test]
fn set_node_changes_one_flag() {
    let graph = setup_graph();
    let mut w = Whale::new(&graph, &vec![1], 1);
    assert_eq!(w.get_node(1), (s("B"), true));
    w.set_node(1, false);
    assert_eq!(w.get_node(1), (s("B"), false));
    assert_eq!(w.get_tree().len(), 0);
}

#[test]
fn other_tree_draw_does_not_depend_on_node_order() {
    let graph = setup_graph();
    let w1 = Whale::new(&graph, &vec![0, 2, 3, 5], 4);
    let w2 = Whale::new(&graph, &vec![5, 3, 2, 0], 4);
    assert_ne!(w1.tree.nodes, w2.tree.nodes);
    let other = Tree::new(vec![], vec![s("B")], 1);
    for seed in 0..20u64 {
        let mut r1 = StdRng::seed_from_u64(seed);
        let mut r2 = StdRng::seed_from_u64(seed);
        let i1 = w1.get_index_node_in_other_tree(&mut r1, &other);
        let i2 = w2.get_index_node_in_other_tree(&mut r2, &other);
        assert_eq!(i1, i2);
        assert!(w1.get_node(i1).1);
    }
}
