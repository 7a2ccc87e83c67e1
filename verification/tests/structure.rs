use graph_algos::graph::{Graph, Node};

fn directed(n: usize, edges: &[(usize, usize, i64)]) -> Graph {
    let mut graph = Graph::with_capacity(&n);
    for &(a, b, w) in edges {
        graph.add_weighted_edge(a, b, w);
    }
    graph
}

fn total_weight(edges: &[Node]) -> i64 {
    edges.iter().map(|e| e.weight).sum()
}

#[test]
fn spanning_tree_of_a_triangle() {
    let graph = directed(3, &[(0, 1, 1), (1, 2, 1), (0, 2, 5)]);
    let tree = graph.minimum_spanning_tree().unwrap();
    assert_eq!(vec![Node::new(0, 1, 1), Node::new(1, 2, 1)], tree);
    assert_eq!(2, total_weight(&tree));
}

#[test]
fn spanning_tree_takes_the_lightest_edges_first() {
    let graph = directed(3, &[(0, 1, 5), (1, 2, 1), (0, 2, 2)]);
    let tree = graph.minimum_spanning_tree().unwrap();
    assert_eq!(vec![Node::new(1, 2, 1), Node::new(0, 2, 2)], tree);
}

#[test]
fn spanning_tree_keeps_equal_weights_in_their_order() {
    let graph = directed(3, &[(2, 0, 1), (0, 1, 1), (1, 2, 1)]);
    let tree = graph.minimum_spanning_tree().unwrap();
    assert_eq!(vec![Node::new(0, 1, 1), Node::new(1, 2, 1)], tree);
}

#[test]
fn spanning_tree_has_one_edge_fewer_than_vertices() {
    let graph = directed(
        6,
        &[
            (0, 1, 7),
            (0, 2, 9),
            (0, 5, 14),
            (1, 2, 10),
            (1, 3, 15),
            (2, 3, 11),
            (2, 5, 2),
            (3, 4, 6),
            (5, 4, 9),
        ],
    );
    let tree = graph.minimum_spanning_tree().unwrap();
    assert_eq!(5, tree.len());
    assert_eq!(33, total_weight(&tree));
}

#[test]
fn spanning_tree_of_a_disconnected_graph_is_an_error() {
    let graph = directed(4, &[(0, 1, 3), (2, 3, 1), (1, 0, 2)]);
    let error = graph.minimum_spanning_tree().unwrap_err();
    assert_eq!(vec![Node::new(2, 3, 1), Node::new(1, 0, 2)], error.forest);
}

#[test]
fn spanning_tree_without_edges() {
    assert!(Graph::with_capacity(&2)
        .minimum_spanning_tree()
        .unwrap_err()
        .forest
        .is_empty());
    assert!(Graph::with_capacity(&1)
        .minimum_spanning_tree()
        .unwrap()
        .is_empty());
    assert!(Graph::new().minimum_spanning_tree().unwrap().is_empty());
}

#[test]
fn edge_list_goes_vertex_by_vertex() {
    let graph = directed(3, &[(2, 0, 1), (0, 1, 4), (0, 2, 3)]);
    assert_eq!(
        vec![Node::new(0, 1, 4), Node::new(0, 2, 3), Node::new(2, 0, 1)],
        graph.edge_list()
    );
}

#[test]
fn topological_order_of_a_diamond() {
    let graph = directed(4, &[(0, 1, 1), (0, 2, 1), (1, 3, 1), (2, 3, 1)]);
    assert_eq!(vec![0, 1, 2, 3], graph.topological_sort());
}

#[test]
fn topological_order_puts_every_edge_forward() {
    let graph = directed(
        7,
        &[
            (5, 2, 1),
            (5, 0, 1),
            (4, 0, 1),
            (4, 1, 1),
            (2, 3, 1),
            (3, 1, 1),
            (6, 5, 1),
            (6, 4, 1),
        ],
    );
    let order = graph.topological_sort();
    let mut sorted = order.clone();
    sorted.sort();
    assert_eq!(vec![0, 1, 2, 3, 4, 5, 6], sorted);
    let place = |v: usize| order.iter().position(|&x| x == v).unwrap();
    for list in &graph.edges {
        for edge in list {
            assert!(place(edge.from) < place(edge.to));
        }
    }
}

#[test]
fn topological_order_lists_every_vertex_of_a_cycle_once() {
    let graph = directed(3, &[(0, 1, 1), (1, 2, 1), (2, 0, 1), (1, 1, 1)]);
    assert_eq!(vec![0, 1, 2], graph.topological_sort());
}

#[test]
fn topological_order_of_a_vertex_found_twice() {
    // 2 is pushed from 0 and again from 1 before it is opened.
    let graph = directed(3, &[(0, 2, 1), (0, 1, 1), (1, 2, 1)]);
    assert_eq!(vec![0, 1, 2], graph.topological_sort());
}

#[test]
fn topological_order_of_the_empty_graph() {
    assert!(Graph::new().topological_sort().is_empty());
}

#[test]
fn components_of_an_undirected_graph() {
    let graph = directed(5, &[(0, 1, 1), (1, 0, 1), (2, 3, 1), (3, 2, 1)]);
    assert_eq!(3, graph.number_of_components());
}

#[test]
fn components_count_vertices_that_no_earlier_vertex_reaches() {
    // 1 reaches 0, but 0 does not reach 1: both start a region.
    let graph = directed(2, &[(1, 0, 1)]);
    assert_eq!(2, graph.number_of_components());
    let graph = directed(2, &[(0, 1, 1)]);
    assert_eq!(1, graph.number_of_components());
}

#[test]
fn components_without_edges_or_vertices() {
    assert_eq!(4, Graph::with_capacity(&4).number_of_components());
    assert_eq!(0, Graph::new().number_of_components());
}

fn connects_all(n: usize, edges: &[Node]) -> bool {
    let mut group: Vec<usize> = (0..n).collect();
    for _ in 0..n {
        for e in edges {
            let low = group[e.from].min(group[e.to]);
            group[e.from] = low;
            group[e.to] = low;
        }
    }
    group.iter().all(|&g| g == 0)
}

#[test]
fn spanning_tree_is_lightest_among_all_spanning_subsets() {
    let graph = directed(
        5,
        &[
            (0, 1, 4),
            (1, 2, 8),
            (2, 3, 7),
            (3, 4, 9),
            (4, 0, 1),
            (1, 3, 2),
            (2, 4, 4),
            (0, 2, 8),
        ],
    );
    let all = graph.edge_list();
    let tree = graph.minimum_spanning_tree().unwrap();
    assert_eq!(4, tree.len());
    assert!(connects_all(5, &tree));
    let mut least = i64::MAX;
    for mask in 0u32..(1 << all.len()) {
        let subset: Vec<Node> = (0..all.len())
            .filter(|i| mask & (1 << i) != 0)
            .map(|i| all[i])
            .collect();
        if connects_all(5, &subset) {
            least = least.min(total_weight(&subset));
        }
    }
    assert_eq!(11, least);
    assert_eq!(least, total_weight(&tree));
}

#[test]
fn spanning_tree_exists_exactly_on_connected_graphs() {
    let connected = directed(4, &[(3, 2, 1), (2, 1, 1), (1, 0, 1), (0, 3, 1)]);
    assert_eq!(3, connected.minimum_spanning_tree().unwrap().len());
    let split = directed(4, &[(0, 1, 1), (1, 0, 1), (2, 3, 1), (3, 2, 1)]);
    let forest = split.minimum_spanning_tree().unwrap_err().forest;
    assert_eq!(vec![Node::new(0, 1, 1), Node::new(2, 3, 1)], forest);
}
