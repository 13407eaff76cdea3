use city_graph::graph::{degrees_of_separation, Closeness, Graph, QueryError};
use city_graph::ingest::{add_record, normalize};

fn edge(graph: &mut Graph, u: &str, v: &str) {
    graph.add_edge(u.to_string(), v.to_string());
}

fn scenario_a() -> Graph {
    let mut graph = Graph::new();
    edge(&mut graph, "Mumbai", "Hyderabad");
    edge(&mut graph, "Mumbai", "Delhi");
    edge(&mut graph, "Hyderabad", "Chennai");
    graph
}

fn neighbors_of(graph: &Graph, label: &str) -> Vec<String> {
    for (node, neighbors) in graph.get_adj_list() {
        if node == label {
            return neighbors;
        }
    }
    Vec::new()
}

fn count_of<T: Copy>(entries: &[(String, T)], label: &str) -> T {
    entries.iter().find(|(node, _)| node == label).map(|(_, c)| *c).unwrap()
}

#[test]
fn test_degrees_of_separation() {
    let mut graph = Graph::new();
    graph.add_edge("Mumbai".to_string(), "Hyderabad".to_string());
    graph.add_edge("Mumbai".to_string(), "Delhi".to_string());
    graph.add_edge("Hyderabad".to_string(), "Chennai".to_string());

    assert_eq!(
        degrees_of_separation(&graph, "Mumbai", "Hyderabad"),
        Some(1)
    );
    assert_eq!(degrees_of_separation(&graph, "Mumbai", "Chennai"), Some(2));
    assert_eq!(degrees_of_separation(&graph, "Mumbai", "Delhi"), Some(1));
    assert_eq!(degrees_of_separation(&graph, "Delhi", "Chennai"), Some(3));
    assert_eq!(
        degrees_of_separation(&graph, "Mumbai", "NonExistentCity"),
        None
    );
}

#[test]
fn test_no_connection() {
    let mut graph = Graph::new();
    graph.add_edge("CityA".to_string(), "CityB".to_string());
    graph.add_edge("CityC".to_string(), "CityD".to_string());

    assert_eq!(degrees_of_separation(&graph, "CityA", "CityD"), None);
}

#[test]
fn test_single_node_graph() {
    let mut graph = Graph::new();
    graph.add_edge("CityA".to_string(), "CityA".to_string());

    assert_eq!(degrees_of_separation(&graph, "CityA", "CityA"), Some(0));
    assert_eq!(degrees_of_separation(&graph, "CityA", "CityB"), None);
}

#[test]
fn hop_distance_scenario_a() {
    let graph = scenario_a();
    assert_eq!(graph.hop_distance("Mumbai", "Hyderabad"), Ok(1));
    assert_eq!(graph.hop_distance("Mumbai", "Chennai"), Ok(2));
    assert_eq!(graph.hop_distance("Mumbai", "Delhi"), Ok(1));
    assert_eq!(graph.hop_distance("Delhi", "Chennai"), Ok(3));
    assert_eq!(graph.hop_distance("Chennai", "Delhi"), Ok(3));
    assert_eq!(
        graph.hop_distance("Mumbai", "NonExistentCity"),
        Err(QueryError::NodeNotFound)
    );
    assert_eq!(
        graph.hop_distance("NonExistentCity", "Mumbai"),
        Err(QueryError::NodeNotFound)
    );
}

#[test]
fn hop_distance_disconnected_components() {
    let mut graph = Graph::new();
    edge(&mut graph, "CityA", "CityB");
    edge(&mut graph, "CityC", "CityD");
    assert_eq!(
        graph.hop_distance("CityA", "CityD"),
        Err(QueryError::Disconnected)
    );
    assert_eq!(graph.hop_distance("CityA", "CityB"), Ok(1));
}

#[test]
fn hop_distance_self_loop() {
    let mut graph = Graph::new();
    edge(&mut graph, "CityA", "CityA");
    assert_eq!(graph.hop_distance("CityA", "CityA"), Ok(0));
    assert_eq!(
        graph.hop_distance("CityA", "CityB"),
        Err(QueryError::NodeNotFound)
    );
}

#[test]
fn hop_distance_on_empty_graph() {
    let graph = Graph::new();
    assert_eq!(graph.hop_distance("X", "X"), Err(QueryError::NodeNotFound));
    assert!(graph.get_adj_list().is_empty());
}

#[test]
fn edges_are_symmetric() {
    let graph = scenario_a();
    assert_eq!(neighbors_of(&graph, "Mumbai"), vec!["Hyderabad", "Delhi"]);
    assert_eq!(neighbors_of(&graph, "Hyderabad"), vec!["Mumbai", "Chennai"]);
    assert_eq!(neighbors_of(&graph, "Delhi"), vec!["Mumbai"]);
    assert_eq!(neighbors_of(&graph, "Chennai"), vec!["Hyderabad"]);
}

#[test]
fn adjacency_keeps_insertion_order_of_nodes() {
    let graph = scenario_a();
    let labels: Vec<String> = graph.get_adj_list().into_iter().map(|(l, _)| l).collect();
    assert_eq!(labels, vec!["Mumbai", "Hyderabad", "Delhi", "Chennai"]);
}

#[test]
fn duplicate_edges_are_kept() {
    let mut graph = Graph::new();
    edge(&mut graph, "X", "Y");
    edge(&mut graph, "X", "Y");
    assert_eq!(neighbors_of(&graph, "X"), vec!["Y", "Y"]);
    assert_eq!(neighbors_of(&graph, "Y"), vec!["X", "X"]);
    let degrees = graph.degree_centrality();
    assert_eq!(count_of(&degrees, "X"), 2);
    assert_eq!(count_of(&degrees, "Y"), 2);
}

#[test]
fn self_loop_counts_twice() {
    let mut graph = Graph::new();
    edge(&mut graph, "CityA", "CityA");
    assert_eq!(neighbors_of(&graph, "CityA"), vec!["CityA", "CityA"]);
    assert_eq!(graph.degree_centrality(), vec![("CityA".to_string(), 2)]);
}

#[test]
fn degree_centrality_scenario_a() {
    let graph = scenario_a();
    assert_eq!(
        graph.degree_centrality(),
        vec![
            ("Mumbai".to_string(), 2),
            ("Hyderabad".to_string(), 2),
            ("Delhi".to_string(), 1),
            ("Chennai".to_string(), 1),
        ]
    );
}

#[test]
fn closeness_when_all_reachable() {
    let graph = scenario_a();
    assert_eq!(
        graph.closeness_centrality("Mumbai"),
        Closeness::Reciprocal { total_distance: 4 }
    );
    assert_eq!(
        graph.closeness_centrality("Delhi"),
        Closeness::Reciprocal { total_distance: 6 }
    );
}

#[test]
fn closeness_undefined_when_disconnected_or_absent() {
    let mut graph = Graph::new();
    edge(&mut graph, "CityA", "CityB");
    edge(&mut graph, "CityC", "CityD");
    assert_eq!(graph.closeness_centrality("CityA"), Closeness::Undefined);
    assert_eq!(graph.closeness_centrality("Nowhere"), Closeness::Undefined);
    assert_eq!(Graph::new().closeness_centrality("CityA"), Closeness::Undefined);
}

#[test]
fn closeness_degenerate_for_single_node() {
    let mut graph = Graph::new();
    edge(&mut graph, "CityA", "CityA");
    assert_eq!(graph.closeness_centrality("CityA"), Closeness::Degenerate);
}

#[test]
fn shortest_path_scenario_a() {
    let graph = scenario_a();
    assert_eq!(
        graph.shortest_paths("Delhi", "Chennai"),
        vec![vec!["Delhi", "Mumbai", "Hyderabad", "Chennai"]]
    );
    assert_eq!(
        graph.shortest_paths("Mumbai", "Hyderabad"),
        vec![vec!["Mumbai", "Hyderabad"]]
    );
}

#[test]
fn shortest_path_edge_cases() {
    let mut graph = Graph::new();
    edge(&mut graph, "CityA", "CityA");
    edge(&mut graph, "CityB", "CityC");
    assert_eq!(graph.shortest_paths("CityA", "CityA"), vec![vec!["CityA"]]);
    assert!(graph.shortest_paths("CityA", "CityB").is_empty());
    assert!(graph.shortest_paths("CityA", "Nowhere").is_empty());
    assert!(graph.shortest_paths("Nowhere", "Nowhere").is_empty());
}

#[test]
fn shortest_path_takes_first_discovered_parent() {
    // A and B are both one hop from S and both reach T; T is first reached through A.
    let mut graph = Graph::new();
    edge(&mut graph, "S", "A");
    edge(&mut graph, "S", "B");
    edge(&mut graph, "B", "T");
    edge(&mut graph, "A", "T");
    assert_eq!(graph.shortest_paths("S", "T"), vec![vec!["S", "A", "T"]]);
}

#[test]
fn path_length_matches_hop_distance() {
    let graph = scenario_a();
    let names = ["Mumbai", "Hyderabad", "Delhi", "Chennai"];
    for start in names {
        for end in names {
            let paths = graph.shortest_paths(start, end);
            assert_eq!(paths.len(), 1);
            assert_eq!(graph.hop_distance(start, end), Ok(paths[0].len() - 1));
        }
    }
}

#[test]
fn hop_distance_is_least_over_a_cycle() {
    // a cycle of five: the far side is two hops away either way round
    let mut graph = Graph::new();
    edge(&mut graph, "a", "b");
    edge(&mut graph, "b", "c");
    edge(&mut graph, "c", "d");
    edge(&mut graph, "d", "e");
    edge(&mut graph, "e", "a");
    assert_eq!(graph.hop_distance("a", "c"), Ok(2));
    assert_eq!(graph.hop_distance("a", "d"), Ok(2));
    assert_eq!(graph.hop_distance("a", "e"), Ok(1));
    assert_eq!(graph.hop_distance("c", "c"), Ok(0));
}

#[test]
fn betweenness_scenario_a() {
    let graph = scenario_a();
    let counts = graph.betweenness_centrality();
    assert_eq!(
        counts,
        vec![
            ("Mumbai".to_string(), 10),
            ("Hyderabad".to_string(), 10),
            ("Delhi".to_string(), 6),
            ("Chennai".to_string(), 6),
        ]
    );
    let total: u128 = counts.iter().map(|(_, c)| *c).sum();
    assert_eq!(total, 32);
}

#[test]
fn betweenness_sum_equals_path_lengths() {
    let mut graph = Graph::new();
    edge(&mut graph, "CityA", "CityB");
    edge(&mut graph, "CityC", "CityD");
    edge(&mut graph, "CityD", "CityE");
    let names = ["CityA", "CityB", "CityC", "CityD", "CityE"];
    let mut expected: u128 = 0;
    for start in names {
        for end in names {
            if start != end {
                for path in graph.shortest_paths(start, end) {
                    expected += path.len() as u128;
                }
            }
        }
    }
    let total: u128 = graph.betweenness_centrality().iter().map(|(_, c)| *c).sum();
    assert_eq!(total, expected);
    assert_eq!(total, 2 * (2 + 2 + 2 + 3));
}

#[test]
fn betweenness_single_node_is_empty() {
    let mut graph = Graph::new();
    edge(&mut graph, "CityA", "CityA");
    assert!(graph.betweenness_centrality().is_empty());
    assert!(Graph::new().betweenness_centrality().is_empty());
}

#[test]
fn betweenness_leaves_out_nodes_on_no_path() {
    let mut graph = Graph::new();
    edge(&mut graph, "Lone", "Lone");
    edge(&mut graph, "CityA", "CityB");
    let counts = graph.betweenness_centrality();
    assert_eq!(
        counts,
        vec![("CityA".to_string(), 2), ("CityB".to_string(), 2)]
    );
    assert!(counts.iter().all(|(_, c)| *c >= 1));
}

#[test]
fn normalize_trims_and_lowercases() {
    assert_eq!(normalize("  New Delhi \t"), "new delhi");
    assert_eq!(normalize("MUMBAI"), "mumbai");
    assert_eq!(normalize("   "), "");
}

#[test]
fn add_record_normalizes_labels() {
    let mut graph = Graph::new();
    assert!(add_record(&mut graph, " Mumbai ", "DELHI"));
    assert_eq!(graph.hop_distance("mumbai", "delhi"), Ok(1));
    assert_eq!(
        graph.hop_distance("Mumbai", "delhi"),
        Err(QueryError::NodeNotFound)
    );
}

#[test]
fn add_record_skips_empty_labels() {
    let mut graph = Graph::new();
    assert!(!add_record(&mut graph, "   ", "Delhi"));
    assert!(!add_record(&mut graph, "Mumbai", ""));
    assert!(graph.get_adj_list().is_empty());
}
