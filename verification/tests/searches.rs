use graph_algos::graph::{Graph, Point};
use std::cell::RefCell;

const INF: i64 = i64::MAX;

fn undirected(n: usize, edges: &[(usize, usize, i64)]) -> Graph {
    let mut graph = Graph::with_capacity(&n);
    for &(a, b, w) in edges {
        graph.add_weighted_edge(a, b, w);
        graph.add_weighted_edge(b, a, w);
    }
    graph
}

fn directed(n: usize, edges: &[(usize, usize, i64)]) -> Graph {
    let mut graph = Graph::with_capacity(&n);
    for &(a, b, w) in edges {
        graph.add_weighted_edge(a, b, w);
    }
    graph
}

#[test]
fn bfs_start_is_at_distance_zero() {
    let graph = directed(4, &[(0, 1, 9), (1, 2, 9), (2, 0, 9)]);
    for start in 0..4 {
        assert_eq!(0, graph.bfs(start, |_| {}, |_| {})[start]);
    }
}

#[test]
fn bfs_leaves_unreachable_vertices_at_infinity() {
    let graph = Graph::with_capacity(&2);
    assert_eq!(vec![0, INF], graph.bfs(0, |_| {}, |_| {}));
    let graph = directed(4, &[(0, 1, 1), (2, 3, 1), (3, 0, 1)]);
    assert_eq!(vec![0, 1, INF, INF], graph.bfs(0, |_| {}, |_| {}));
}

#[test]
fn bfs_counts_edges_not_weights() {
    let graph = directed(4, &[(0, 1, 100), (1, 3, 100), (0, 2, 1), (2, 1, 1)]);
    assert_eq!(vec![0, 1, 1, 2], graph.bfs(0, |_| {}, |_| {}));
}

#[test]
fn bfs_keeps_the_first_distance_of_a_vertex() {
    // 2 is found from 0 and seen again from 1: it stays at one edge.
    let graph = directed(3, &[(0, 1, 1), (0, 2, 1), (1, 2, 1)]);
    assert_eq!(vec![0, 1, 1], graph.bfs(0, |_| {}, |_| {}));
}

#[test]
fn bfs_calls_each_hook_once_per_vertex_before_and_after() {
    let graph = directed(5, &[(0, 1, 1), (0, 2, 1), (1, 3, 1), (2, 3, 1)]);
    let events: RefCell<Vec<(char, usize)>> = RefCell::new(Vec::new());
    let table = graph.bfs(
        0,
        |v| events.borrow_mut().push(('<', v)),
        |v| events.borrow_mut().push(('>', v)),
    );
    assert_eq!(vec![0, 1, 1, 2, INF], table);
    assert_eq!(
        vec![
            ('<', 0),
            ('>', 0),
            ('<', 1),
            ('>', 1),
            ('<', 2),
            ('>', 2),
            ('<', 3),
            ('>', 3)
        ],
        events.into_inner()
    );
}

#[test]
fn dijkstra_takes_the_lighter_detour() {
    let graph = directed(3, &[(0, 1, 1), (1, 2, 1), (0, 2, 5)]);
    assert_eq!(vec![0, 1, 2], graph.dijsktra(0));
}

#[test]
fn dijkstra_improves_a_distance_found_earlier() {
    let graph = directed(
        5,
        &[(0, 1, 10), (0, 2, 1), (2, 1, 2), (1, 3, 1), (3, 1, 0)],
    );
    assert_eq!(vec![0, 3, 1, 4, INF], graph.dijsktra(0));
}

#[test]
fn dijkstra_equals_bfs_on_unit_weights() {
    let graph = undirected(
        7,
        &[(0, 1, 1), (1, 2, 1), (2, 3, 1), (0, 4, 1), (4, 3, 1), (3, 5, 1)],
    );
    for start in 0..7 {
        assert_eq!(graph.bfs(start, |_| {}, |_| {}), graph.dijsktra(start));
    }
}

#[test]
fn dijkstra_leaves_no_edge_that_improves() {
    let graph = directed(
        6,
        &[
            (0, 1, 7),
            (0, 2, 9),
            (0, 5, 14),
            (1, 2, 10),
            (1, 3, 15),
            (2, 3, 11),
            (2, 5, 2),
            (3, 4, 6),
            (5, 4, 9),
        ],
    );
    let table = graph.dijsktra(0);
    assert_eq!(vec![0, 7, 9, 20, 20, 11], table);
    for list in &graph.edges {
        for edge in list {
            assert!(table[edge.to] <= table[edge.from] + edge.weight);
        }
    }
}

#[test]
fn dijkstra_with_zero_weights() {
    let graph = directed(3, &[(0, 1, 0), (1, 2, 0), (2, 0, 0)]);
    assert_eq!(vec![0, 0, 0], graph.dijsktra(0));
}

#[test]
fn dijkstra_treats_a_distance_beyond_i64_as_unreached() {
    let graph = directed(3, &[(0, 1, i64::MAX - 1), (1, 2, 5)]);
    assert_eq!(vec![0, i64::MAX - 1, INF], graph.dijsktra(0));
}

#[test]
fn bidirectional_meets_in_the_middle_of_a_path() {
    let graph = undirected(4, &[(0, 1, 1), (1, 2, 1), (2, 3, 1)]);
    let (cost, table) = graph.bidirectional_search(0, 3).unwrap();
    assert_eq!(3, cost);
    assert_eq!(vec![0, 1, 1, 0], table);
    assert_eq!(graph.bfs(0, |_| {}, |_| {})[3], cost);
}

#[test]
fn bidirectional_over_one_directed_edge() {
    // Only the side of 0 moves: the answer is the greater endpoint distance.
    let graph = directed(2, &[(0, 1, 1)]);
    assert_eq!(Some((1, vec![0, 1])), graph.bidirectional_search(0, 1));
}

#[test]
fn bidirectional_between_two_isolated_vertices() {
    // No side moves, both endpoints keep their zero, and zero is the answer.
    let graph = Graph::with_capacity(&2);
    assert_eq!(Some((0, vec![0, 0])), graph.bidirectional_search(0, 1));
}

#[test]
fn bidirectional_from_a_vertex_to_itself() {
    // Both sides start at 0 and meet at its neighbour.
    let graph = undirected(2, &[(0, 1, 1)]);
    assert_eq!(Some((2, vec![0, 1])), graph.bidirectional_search(0, 0));
    let graph = Graph::with_capacity(&1);
    assert_eq!(Some((0, vec![0])), graph.bidirectional_search(0, 0));
}

#[test]
fn bidirectional_over_one_undirected_edge_counts_it_thrice() {
    // Each endpoint is relaxed from the other before the sides meet.
    let graph = undirected(2, &[(0, 1, 1)]);
    assert_eq!(Some((4, vec![1, 2])), graph.bidirectional_search(0, 1));
}

#[test]
fn bidirectional_reports_nothing_when_both_endpoints_moved() {
    let graph = directed(4, &[(0, 2, 1), (2, 0, 1), (1, 3, 1), (3, 1, 1)]);
    assert_eq!(None, graph.bidirectional_search(0, 1));
}

fn line_of_three() -> Graph {
    let mut graph = directed(3, &[(0, 1, 1), (1, 2, 1)]);
    graph.set_points(vec![
        (0, Point::new(0, 0)),
        (1, Point::new(1, 0)),
        (2, Point::new(2, 0)),
    ]);
    graph
}

#[test]
fn a_search_along_a_line() {
    assert_eq!(2, line_of_three().a_search(0, 2));
}

#[test]
fn a_search_reports_infinity_for_an_unreached_target() {
    assert_eq!(INF, line_of_three().a_search(2, 0));
}

#[test]
fn a_search_from_a_vertex_to_itself() {
    assert_eq!(0, line_of_three().a_search(1, 1));
}

#[test]
fn a_search_follows_the_heuristic_not_the_cost() {
    // 1 lies next to the target and is expanded first, though the way over
    // 2 is shorter.
    let mut graph = directed(4, &[(0, 1, 10), (0, 2, 1), (1, 3, 1), (2, 3, 1)]);
    graph.set_points(vec![
        (0, Point::new(0, 0)),
        (1, Point::new(4, 0)),
        (2, Point::new(0, 9)),
        (3, Point::new(5, 0)),
    ]);
    assert_eq!(11, graph.a_search(0, 3));
    assert_eq!(2, graph.dijsktra(0)[3]);
}

#[test]
fn a_search_expands_the_greater_vertex_first_among_equals() {
    // 1 and 2 are equally far from the target; 2 leaves the frontier first
    // and finds the target at cost 7 before 1 could find it at cost 2.
    let mut graph = directed(4, &[(0, 1, 1), (0, 2, 1), (1, 3, 1), (2, 3, 6)]);
    graph.set_points(vec![
        (0, Point::new(0, 0)),
        (1, Point::new(1, 1)),
        (2, Point::new(1, -1)),
        (3, Point::new(1, 0)),
    ]);
    assert_eq!(7, graph.a_search(0, 3));
}

#[test]
fn a_search_heuristic_is_the_manhattan_distance() {
    let graph = Graph::new();
    assert_eq!(
        7,
        graph.a_search_heuristic(&Point::new(1, -2), &Point::new(-2, 2))
    );
    assert_eq!(
        0,
        graph.a_search_heuristic(&Point::new(3, 3), &Point::new(3, 3))
    );
}
