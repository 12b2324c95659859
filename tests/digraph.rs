use algo::util::digraph::Digraph;

#[test]
fn digraph_counts_edges_and_degrees() {
    let mut g = Digraph::new(4);
    assert_eq!(g.v(), 4);
    assert_eq!(g.e(), 0);
    g.add_edge(0, 1);
    g.add_edge(0, 2);
    g.add_edge(2, 1);
    g.add_edge(1, 1);
    assert_eq!(g.e(), 4);
    assert_eq!(g.outdegree(0), 2);
    assert_eq!(g.indegree(1), 3);
    assert_eq!(g.indegree(3), 0);
    assert_eq!(g.adj(0), &vec![1, 2]);
    assert!(g.validate_vertex(3));
    assert!(!g.validate_vertex(4));
}

#[test]
fn digraph_reverse_turns_edges_around() {
    let mut g = Digraph::new(3);
    g.add_edge(0, 1);
    g.add_edge(0, 2);
    g.add_edge(2, 1);
    let r = g.reverse();
    assert_eq!(r.v(), 3);
    assert_eq!(r.e(), 3);
    assert_eq!(r.adj(1), &vec![0, 2]);
    assert_eq!(r.adj(2), &vec![0]);
    assert_eq!(r.adj(0), &Vec::<usize>::new());
    assert_eq!(r.indegree(0), 2);
}

use algo::util::bfs_directed::BreadthFirstDirectedPaths;

fn sample_graph() -> Digraph {
    // 0 -> 1 -> 2 -> 3, 0 -> 2, 4 -> 0, 5 isolated
    let mut g = Digraph::new(6);
    g.add_edge(0, 1);
    g.add_edge(1, 2);
    g.add_edge(2, 3);
    g.add_edge(0, 2);
    g.add_edge(4, 0);
    g
}

#[test]
fn bfs_finds_shortest_distances() {
    let g = sample_graph();
    let b = BreadthFirstDirectedPaths::new(&g, 0);
    assert!(b.has_path_to(0));
    assert!(b.has_path_to(3));
    assert!(!b.has_path_to(4));
    assert!(!b.has_path_to(5));
    assert_eq!(b.distance_to(0), 0);
    assert_eq!(b.distance_to(1), 1);
    assert_eq!(b.distance_to(2), 1);
    assert_eq!(b.distance_to(3), 2);
    assert_eq!(b.distance_to(4), usize::MAX);
    assert_eq!(b.path_to(3), Some(vec![3, 2, 0]));
    assert_eq!(b.path_to(0), Some(vec![0]));
    assert_eq!(b.path_to(5), None);
}

#[test]
fn bfs_from_several_sources() {
    let g = sample_graph();
    let b = BreadthFirstDirectedPaths::new_multi(&g, &[4, 2]);
    assert_eq!(b.distance_to(4), 0);
    assert_eq!(b.distance_to(2), 0);
    assert_eq!(b.distance_to(0), 1);
    assert_eq!(b.distance_to(3), 1);
    assert_eq!(b.distance_to(1), 2);
    assert!(!b.has_path_to(5));
    assert_eq!(b.path_to(1), Some(vec![1, 0, 4]));
}
