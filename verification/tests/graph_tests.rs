use dbseed::graph::Graph;

#[test]
fn chain_sorts_in_order() {
    let g = Graph { n: 3, edges: vec![(0, 1), (1, 2)] };
    let order = g.topo_sort().unwrap();
    assert_eq!(order, vec![0, 1, 2]);
}

#[test]
fn parents_precede_children() {
    // diamond: 0 -> 1, 0 -> 2, 1 -> 3, 2 -> 3
    let g = Graph { n: 4, edges: vec![(0, 1), (0, 2), (1, 3), (2, 3)] };
    let order = g.topo_sort().unwrap();
    let pos = |v: usize| order.iter().position(|&x| x == v).unwrap();
    assert_eq!(order.len(), 4);
    for &(p, c) in &[(0usize, 1usize), (0, 2), (1, 3), (2, 3)] {
        assert!(pos(p) < pos(c));
    }
}

#[test]
fn parallel_edges_are_harmless() {
    let g = Graph { n: 2, edges: vec![(0, 1), (0, 1), (0, 1)] };
    let order = g.topo_sort().unwrap();
    assert_eq!(order, vec![0, 1]);
}

#[test]
fn two_cycle_is_rejected() {
    let g = Graph { n: 2, edges: vec![(0, 1), (1, 0)] };
    assert!(g.topo_sort().is_none());
}

#[test]
fn self_loop_is_rejected() {
    let g = Graph { n: 1, edges: vec![(0, 0)] };
    assert!(g.topo_sort().is_none());
}

#[test]
fn longer_cycle_is_rejected() {
    let g = Graph { n: 4, edges: vec![(0, 1), (1, 2), (2, 3), (3, 1)] };
    assert!(g.topo_sort().is_none());
}

#[test]
fn empty_graph_sorts() {
    let g = Graph { n: 0, edges: vec![] };
    assert_eq!(g.topo_sort().unwrap(), Vec::<usize>::new());
}

#[test]
fn reachability_follows_edges() {
    let g = Graph { n: 4, edges: vec![(0, 1), (1, 2)] };
    let from0 = g.reachable_from(0);
    assert_eq!(from0, vec![true, true, true, false]);
    let from2 = g.reachable_from(2);
    assert_eq!(from2, vec![false, false, true, false]);
}

#[test]
fn ancestors_via_reversal() {
    let g = Graph { n: 3, edges: vec![(0, 1), (1, 2)] };
    let rev = g.reversed();
    // everything node 2 depends on, including itself
    let anc = rev.reachable_from(2);
    assert_eq!(anc, vec![true, true, true]);
    let anc1 = rev.reachable_from(1);
    assert_eq!(anc1, vec![true, true, false]);
}
