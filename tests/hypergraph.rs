use floorplan::geometry::Net;
use floorplan::hypergraph::{cluster_growing_order, reorder_vec, Hypergraph};

#[test]
fn test_cluster_growth() {
    let nets = vec![
        Net{pins: vec![0, 1],    id: 0},
        Net{pins: vec![0, 3],    id: 1},
        Net{pins: vec![0, 2, 4], id: 2},
        Net{pins: vec![1, 3],    id: 3},
        Net{pins: vec![2, 3, 4], id: 4},
        Net{pins: vec![3, 4],    id: 5},
    ];
    let graph = Hypergraph::from(nets);
    let order = cluster_growing_order(&graph, 0);
    assert_eq!(order, vec![0, 1, 3, 4, 2]);
}

#[test]
fn hypergraph_out_nets_drop_the_node() {
    let nets = vec![Net::new(vec![0, 2], 7), Net::new(vec![2, 1, 0], 8)];
    let graph = Hypergraph::from(nets);
    assert_eq!(graph.num_nodes, 3);
    assert_eq!(graph.num_nets, 2);
    let of = |v: usize| -> Vec<(Vec<usize>, usize)> {
        graph.out_nets[v].iter().map(|n| (n.pins.clone(), n.id)).collect()
    };
    assert_eq!(of(0), vec![(vec![2], 7), (vec![2, 1], 8)]);
    assert_eq!(of(1), vec![(vec![2, 0], 8)]);
    assert_eq!(of(2), vec![(vec![0], 7), (vec![1, 0], 8)]);
}

#[test]
fn reorder_follows_the_permutation() {
    let v = vec!['a', 'b', 'c', 'd'];
    assert_eq!(reorder_vec(&vec![2, 0, 3, 1], &v), vec!['c', 'a', 'd', 'b']);
}
