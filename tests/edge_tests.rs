use k_mst::edge::{Edge, EdgeQueue};

#[test]
fn test_new_and_getters() {
    let weight = 15;
    let from = 0;
    let to = 5;

    let edge = Edge::new(weight, from, to);

    assert_eq!(edge.get_weight(), weight, "El peso debe ser el asignado.");
    assert_eq!(edge.get_from(), from, "El nodo de origen debe ser el asignado.");
    assert_eq!(edge.get_to(), to, "El nodo de destino debe ser el asignado.");
}

#[test]
fn test_get_tuple() {
    let edge = Edge::new(2, 1, 9);
    let expected_tuple = (1, 9, 2);
    assert_eq!(edge.get_tuple(), expected_tuple, "La tupla debe contener (from, to, weight).");
}

#[test]
fn test_partial_eq_and_eq() {
    let edge1 = Edge::new(10, 1, 2);
    let edge2 = Edge::new(10, 1, 2);
    assert_eq!(edge1, edge2, "Aristas idénticas deben ser iguales.");

    let edge3 = Edge::new(10, 5, 8);
    assert_eq!(edge1, edge3, "Aristas con el mismo peso deben ser iguales (solo se compara el peso).");

    let edge4 = Edge::new(11, 1, 2);
    assert_ne!(edge1, edge4, "Aristas con diferente peso no deben ser iguales.");
}

#[test]
fn test_ord_and_partial_ord_inverted() {
    let edge_small_weight = Edge::new(5, 0, 1);
    let edge_medium_weight = Edge::new(10, 1, 2);
    let edge_large_weight = Edge::new(20, 2, 3);

    assert!(edge_small_weight > edge_medium_weight, "Menor peso debe ser considerado 'mayor' para la prioridad.");

    let mut edges = vec![edge_large_weight.clone(), edge_small_weight.clone(), edge_medium_weight.clone()];
    edges.sort_by(|a, b| a.partial_cmp(b).unwrap());

    assert_eq!(edges[0].get_weight(), 20, "La arista con mayor peso debe ser la primera.");
    assert_eq!(edges[1].get_weight(), 10, "La arista con peso intermedio debe ser la del medio.");
    assert_eq!(edges[2].get_weight(), 5, "La arista con menor peso debe ser la última.");

    let mut queue = EdgeQueue::new();
    queue.push(edge_large_weight);
    queue.push(edge_small_weight);
    queue.push(edge_medium_weight);

    assert_eq!(queue.pop().unwrap().get_weight(), 5, "La cola debe extraer primero la arista de menor peso.");
    assert_eq!(queue.pop().unwrap().get_weight(), 10, "El siguiente debe ser el de peso intermedio.");
    assert_eq!(queue.pop().unwrap().get_weight(), 20, "El último debe ser el de mayor peso.");
}

#[test]
fn queue_breaks_ties_by_insertion_order() {
    let mut queue = EdgeQueue::new();
    queue.push(Edge::new(7, 0, 1));
    queue.push(Edge::new(3, 0, 2));
    queue.push(Edge::new(3, 0, 3));
    queue.push(Edge::new(3, 0, 4));
    assert_eq!(queue.len(), 4);
    assert_eq!(queue.pop().unwrap().get_to(), 2);
    assert_eq!(queue.pop().unwrap().get_to(), 3);
    assert_eq!(queue.pop().unwrap().get_to(), 4);
    assert_eq!(queue.pop().unwrap().get_to(), 1);
    assert!(queue.pop().is_none());
    assert!(queue.is_empty());
}
