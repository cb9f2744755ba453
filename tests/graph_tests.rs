use citation_graph::components::{label_components, mark_component_dfs};
use citation_graph::loader::parse_edge_line;
use citation_graph::prune::denser_subgraph;
use citation_graph::ranking::{component_densities, find_densest_components, group_components};
use citation_graph::{Density, Graph, GraphError};
use std::collections::HashMap;

fn ratio(d: Density) -> f64 {
    if d.vertices == 0 {
        0.0
    } else {
        d.edges as f64 / d.vertices as f64
    }
}

fn graph_of(outedges: Vec<Vec<usize>>) -> Graph {
    let n = outedges.len();
    Graph { n, outedges, id_to_node: (0..n).collect() }
}

#[test]
fn test_empty_graph() {
    let graph = Graph { n: 0, outedges: Vec::new(), id_to_node: Vec::new() };
    assert_eq!(graph.n, 0);
    assert!(graph.outedges.is_empty());
    assert!(graph.id_to_node.is_empty());
}

#[test]
fn test_single_edge_graph() {
    let edges = vec![(0, 1)];
    let mut graph = Graph { n: 2, outedges: vec![Vec::new(); 2], id_to_node: vec![1, 2] };
    graph.add_directed_edges(&edges);
    assert_eq!(graph.outedges[0], vec![1]);
    assert_eq!(graph.outedges[1], Vec::<usize>::new());
}

#[test]
fn test_outdegree() {
    let graph = Graph {
        n: 3,
        outedges: vec![vec![1, 2], vec![2], vec![]],
        id_to_node: vec![0, 1, 2],
    };
    let expected_out_degree = vec![(0, 2), (1, 1), (2, 0)];
    let actual_out_degree = graph.calculate_out_degree();
    assert_eq!(actual_out_degree, expected_out_degree);
}

#[test]
fn test_density_calculation() {
    let graph = Graph {
        n: 4,
        outedges: vec![vec![1, 2], vec![0, 2], vec![3], vec![]],
        id_to_node: vec![0, 1, 2, 3],
    };
    let expected_density = 5.0 / 4.0;
    assert_eq!(ratio(graph.calculate_density()), expected_density);
}

#[test]
fn test_find_densest_components() {
    let graph = Graph {
        n: 6,
        outedges: vec![vec![1], vec![], vec![3, 4], vec![2], vec![], vec![]],
        id_to_node: vec![0, 1, 2, 3, 4, 5],
    };
    let component = vec![Some(1), Some(1), Some(2), Some(2), Some(2), None];
    let expected = vec![(2, 1.0, vec![2, 3, 4]), (1, 0.5, vec![0, 1])];
    let result: Vec<(usize, f64, Vec<usize>)> = find_densest_components(&graph, &component)
        .into_iter()
        .map(|(id, d, members)| (id, ratio(d), members))
        .collect();
    assert_eq!(result, expected);
}

#[test]
fn single_edge_degrees_and_out_density() {
    let graph = graph_of(vec![vec![1], vec![]]);
    assert_eq!(graph.calculate_out_degree(), vec![(0, 1), (1, 0)]);
    let d = graph.calculate_out_density();
    assert_eq!(d, Density { edges: 1, vertices: 1 });
    assert_eq!(ratio(d), 1.0);
    assert_eq!(graph.calculate_density(), Density { edges: 1, vertices: 2 });
}

#[test]
fn out_density_skips_vertices_without_edges() {
    let graph = graph_of(vec![vec![1, 2], vec![0, 2], vec![3], vec![]]);
    assert_eq!(graph.calculate_out_density(), Density { edges: 5, vertices: 3 });
}

#[test]
fn degenerate_densities_are_zero() {
    let empty = graph_of(vec![]);
    assert_eq!(ratio(empty.calculate_density()), 0.0);
    assert_eq!(ratio(empty.calculate_out_density()), 0.0);
    let isolated = graph_of(vec![vec![], vec![], vec![]]);
    assert_eq!(ratio(isolated.calculate_density()), 0.0);
    assert_eq!(ratio(isolated.calculate_out_density()), 0.0);
}

#[test]
fn density_comparison_is_by_value() {
    let half = Density { edges: 1, vertices: 2 };
    let two_quarters = Density { edges: 2, vertices: 4 };
    let one = Density { edges: 3, vertices: 3 };
    let none = Density { edges: 5, vertices: 0 };
    assert!(half.at_most(&two_quarters) && two_quarters.at_most(&half));
    assert!(half.at_most(&one));
    assert!(!one.at_most(&half));
    assert!(none.at_most(&half));
    assert!(!half.at_most(&none));
    let big = Density { edges: usize::MAX, vertices: 1 };
    let bigger = Density { edges: usize::MAX, vertices: usize::MAX - 1 };
    assert!(bigger.at_most(&big));
    assert!(!big.at_most(&bigger));
}

#[test]
fn induced_subgraph_keeps_inner_edges() {
    let graph = graph_of(vec![vec![1, 2, 3], vec![0, 3], vec![3], vec![1]]);
    let sub = graph.induced_subgraph(&vec![3, 1]);
    assert_eq!(sub.n, 2);
    assert_eq!(sub.id_to_node, vec![3, 1]);
    assert_eq!(sub.outedges, vec![vec![1], vec![0]]);
}

#[test]
fn prune_keeps_three_quarters() {
    for n in 0..12usize {
        let graph = graph_of((0..n).map(|v| if v + 1 < n { vec![v + 1] } else { vec![] }).collect());
        let mut g = graph.clone();
        let pruned = denser_subgraph(&mut g);
        assert_eq!(pruned.n, n - n / 4);
        assert_eq!(pruned.outedges.len(), n - n / 4);
        assert_eq!(pruned.id_to_node.len(), n - n / 4);
    }
}

#[test]
fn prune_orders_by_degree_then_index() {
    // degrees: 0 -> 1, 1 -> 3, 2 -> 0, 3 -> 1, 4 -> 2
    let mut graph = graph_of(vec![vec![1], vec![0, 2, 3], vec![], vec![4], vec![0, 1]]);
    let pruned = denser_subgraph(&mut graph);
    assert_eq!(pruned.id_to_node, vec![1, 4, 3, 0]);
    // local indices: 1 -> 0, 4 -> 1, 3 -> 2, 0 -> 3; vertex 2 is gone
    assert_eq!(pruned.outedges, vec![vec![3, 2], vec![3, 0], vec![1], vec![0]]);
}

#[test]
fn dfs_marks_forward_reachable_vertices() {
    let graph = graph_of(vec![vec![1], vec![2], vec![], vec![0], vec![]]);
    let mut component = vec![None; 5];
    mark_component_dfs(0, &graph, &mut component, 1);
    assert_eq!(component, vec![Some(1), Some(1), Some(1), None, None]);
    mark_component_dfs(3, &graph, &mut component, 2);
    assert_eq!(component, vec![Some(1), Some(1), Some(1), Some(2), None]);
}

#[test]
fn labels_cover_every_vertex() {
    let graph = graph_of(vec![vec![1], vec![2], vec![], vec![0], vec![], vec![4]]);
    let labels = label_components(&graph);
    assert_eq!(labels, vec![Some(1), Some(1), Some(1), Some(2), Some(3), Some(4)]);
    for u in 0..graph.n {
        for &w in &graph.outedges[u] {
            assert!(labels[w].unwrap() <= labels[u].unwrap());
        }
    }
}

#[test]
fn deep_chain_is_labelled_without_recursion() {
    let n = 200_000usize;
    let graph = graph_of((0..n).map(|v| if v + 1 < n { vec![v + 1] } else { vec![] }).collect());
    let labels = label_components(&graph);
    assert!(labels.iter().all(|l| *l == Some(1)));
}

#[test]
fn grouping_follows_labels() {
    let component = vec![Some(4), None, Some(2), Some(4), Some(2), Some(7)];
    let (labels, members) = group_components(&component);
    assert_eq!(labels, vec![4, 2, 7]);
    assert_eq!(members, vec![vec![0, 3], vec![2, 4], vec![5]]);
}

#[test]
fn ranking_returns_at_most_ten_densest() {
    // twelve components of two vertices; component i has i % 3 edges
    let mut outedges = Vec::new();
    let mut component = Vec::new();
    for i in 0..12usize {
        let a = 2 * i;
        let b = a + 1;
        let edges = i % 3;
        outedges.push(if edges >= 1 { vec![b] } else { vec![] });
        outedges.push(if edges >= 2 { vec![a] } else { vec![] });
        component.push(Some(i + 1));
        component.push(Some(i + 1));
    }
    let graph = graph_of(outedges);
    let result = find_densest_components(&graph, &component);
    assert_eq!(result.len(), 10);
    for pair in result.windows(2) {
        assert!(ratio(pair[1].1) <= ratio(pair[0].1));
    }
    let densities: Vec<f64> = result.iter().map(|e| ratio(e.1)).collect();
    assert_eq!(densities, vec![1.0, 1.0, 1.0, 1.0, 0.5, 0.5, 0.5, 0.5, 0.0, 0.0]);
}

#[test]
fn ranking_skips_large_components() {
    let n = 60usize;
    let mut outedges: Vec<Vec<usize>> = (0..50).map(|v| vec![(v + 1) % 50]).collect();
    outedges.extend((50..n).map(|_| vec![]));
    let mut component: Vec<Option<usize>> = vec![Some(1); 50];
    component.extend((50..n).map(|_| Some(2)));
    let graph = graph_of(outedges);
    let result = find_densest_components(&graph, &component);
    assert_eq!(result.len(), 1);
    assert_eq!(result[0].0, 2);
    assert_eq!(result[0].2.len(), 10);
    let all = component_densities(&graph, &component);
    assert_eq!(all, vec![(1, Density { edges: 50, vertices: 50 }), (2, Density { edges: 0, vertices: 10 })]);
}

#[test]
fn ranked_density_matches_rebuilt_subgraph() {
    let graph = graph_of(vec![vec![1], vec![], vec![3, 4], vec![2], vec![], vec![]]);
    let component = vec![Some(1), Some(1), Some(2), Some(2), Some(2), None];
    for (_, density, members) in find_densest_components(&graph, &component) {
        let sub = graph.induced_subgraph(&members);
        assert_eq!(sub.calculate_density(), density);
    }
}

#[test]
fn edge_list_builds_sorted_graph() {
    let edges = vec![(10, 30), (10, 20), (20, 30), (30, 10), (10, 20)];
    let graph = Graph::from_edge_list(&edges);
    assert_eq!(graph.n, 3);
    assert_eq!(graph.id_to_node, vec![10, 30, 20]);
    assert_eq!(graph.outedges, vec![vec![1, 2, 2], vec![0], vec![1]]);
}

#[test]
fn map_node_assigns_indices_once() {
    let mut node_map = HashMap::new();
    let mut ids = Vec::new();
    let mut current = 0usize;
    assert_eq!(Graph::map_node(&mut node_map, &mut ids, 42, &mut current), 0);
    assert_eq!(Graph::map_node(&mut node_map, &mut ids, 7, &mut current), 1);
    assert_eq!(Graph::map_node(&mut node_map, &mut ids, 42, &mut current), 0);
    assert_eq!(ids, vec![42, 7]);
    assert_eq!(current, 2);
}

#[test]
fn sorting_lists_orders_each_one() {
    let mut graph = graph_of(vec![vec![2, 0, 1, 0], vec![], vec![1, 0]]);
    graph.sort_graph_lists();
    assert_eq!(graph.outedges, vec![vec![0, 0, 1, 2], vec![], vec![0, 1]]);
}

#[test]
fn edge_lines_parse_first_two_numbers() {
    assert_eq!(parse_edge_line(b"9907233\t9301253"), Some((9907233, 9301253)));
    assert_eq!(parse_edge_line(b"  1  +2 extra\r"), Some((1, 2)));
    assert_eq!(parse_edge_line(b"18446744073709551615 0"), Some((usize::MAX, 0)));
    assert_eq!(parse_edge_line(b"18446744073709551616 0"), None);
    assert_eq!(parse_edge_line(b"12"), None);
    assert_eq!(parse_edge_line(b""), None);
    assert_eq!(parse_edge_line(b"1 x2"), None);
    assert_eq!(parse_edge_line(b"-1 2"), None);
    assert_eq!(parse_edge_line(b"+ 2"), None);
}

#[test]
fn removing_a_vertex_isolates_it() {
    let mut graph = graph_of(vec![vec![1, 2, 1], vec![0, 1], vec![1], vec![]]);
    assert_eq!(graph.remove_vertex(1), Ok(()));
    assert_eq!(graph.n, 4);
    assert_eq!(graph.outedges, vec![vec![2], vec![], vec![], vec![]]);
    assert_eq!(graph.id_to_node, vec![0, 1, 2, 3]);
}

#[test]
fn removing_a_missing_vertex_fails() {
    let mut graph = graph_of(vec![vec![1], vec![]]);
    assert_eq!(graph.remove_vertex(2), Err(GraphError::VertexOutOfRange));
    assert_eq!(graph.outedges, vec![vec![1], vec![]]);
}

#[test]
fn dfs_keeps_any_earlier_labels() {
    // earlier labels that are neither closed nor below the new number
    let graph = graph_of(vec![vec![1, 3], vec![2], vec![0], vec![]]);
    let mut component = vec![None, Some(7), None, None];
    mark_component_dfs(0, &graph, &mut component, 2);
    assert_eq!(component, vec![Some(2), Some(7), None, Some(2)]);
}

#[test]
fn labels_follow_seed_order() {
    let graph = graph_of(vec![vec![1], vec![]]);
    assert_eq!(label_components(&graph), vec![Some(1), Some(1)]);
    let graph = graph_of(vec![vec![], vec![0], vec![3], vec![]]);
    assert_eq!(label_components(&graph), vec![Some(1), Some(2), Some(3), Some(3)]);
}
