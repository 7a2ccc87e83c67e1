use graph_algos::graph::{Graph, Node, Point};
use graph_algos::utils::{read_one_number, read_three_numbers, read_two_numbers};

#[test]
fn new_graph_is_empty() {
    let graph = Graph::new();
    assert_eq!(0, graph.edges.len());
    assert_eq!(0, graph.points.len());
    assert_eq!(0, graph.total_edges());
}

#[test]
fn with_capacity_makes_one_list_per_vertex() {
    let graph = Graph::with_capacity(&4);
    assert_eq!(4, graph.edges.len());
    assert!(graph.edges.iter().all(|list| list.is_empty()));
    assert_eq!(0, graph.points.len());
    assert_eq!(0, graph.total_edges());
}

#[test]
fn edges_are_filed_under_their_start() {
    let mut graph = Graph::with_capacity(&3);
    graph.add_weighted_edge(0, 1, 7);
    graph.add_weighted_edge(0, 2, -3);
    graph.add_weighted_edge(2, 2, 0);
    assert_eq!(vec![Node::new(0, 1, 7), Node::new(0, 2, -3)], graph.edges[0]);
    assert!(graph.edges[1].is_empty());
    assert_eq!(vec![Node::new(2, 2, 0)], graph.edges[2]);
    assert_eq!(3, graph.total_edges());
}

#[test]
fn parallel_edges_are_kept() {
    let mut graph = Graph::with_capacity(&2);
    graph.add_weighted_edge(0, 1, 1);
    graph.add_weighted_edge(0, 1, 1);
    assert_eq!(2, graph.edges[0].len());
    assert_eq!(2, graph.total_edges());
}

#[test]
fn points_are_stored_by_vertex_id() {
    let mut graph = Graph::with_capacity(&3);
    graph.set_points(vec![
        (2, Point::new(20, 21)),
        (0, Point::new(0, 1)),
        (1, Point::new(10, 11)),
    ]);
    assert_eq!(
        vec![Point::new(0, 1), Point::new(10, 11), Point::new(20, 21)],
        graph.points
    );
}

#[test]
fn points_of_an_empty_assignment() {
    let mut graph = Graph::with_capacity(&2);
    graph.set_points(Vec::new());
    assert!(graph.points.is_empty());
}

#[test]
fn from_prompt_adds_the_edges_in_order() {
    let graph = Graph::from_prompt(3, &vec![(0, 1, 4), (2, 0, 9), (0, 2, 1)]);
    assert_eq!(3, graph.edges.len());
    assert_eq!(vec![Node::new(0, 1, 4), Node::new(0, 2, 1)], graph.edges[0]);
    assert!(graph.edges[1].is_empty());
    assert_eq!(vec![Node::new(2, 0, 9)], graph.edges[2]);
    assert_eq!(3, graph.total_edges());
    assert!(graph.points.is_empty());
}

#[test]
fn from_prompt_without_vertices() {
    let graph = Graph::from_prompt(0, &Vec::new());
    assert_eq!(0, graph.edges.len());
}

#[test]
fn leading_numbers_of_a_line() {
    let line = vec![5, -6, 7, 8];
    assert_eq!(5, read_one_number(&line));
    assert_eq!((5, -6), read_two_numbers(&line));
    assert_eq!((5, -6, 7), read_three_numbers(&line));
}
