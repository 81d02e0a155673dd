use std::collections::HashMap;
use std::collections::HashSet;

use graph_store::Graph;
use graph_store::Id;

#[test]
fn main_main() {
    let mut g: Graph<String, String> = Graph::new();

    let mut nodes = Vec::new();
    for i in 0..10 {
        let string = format!("node {i}");
        assert_eq!(g.nodes_count(), i);
        nodes.push(g.add_node(string));
        assert_eq!(g.nodes_count(), i + 1);
        test_neighbors(&g);
    }

    for (i, value) in nodes.windows(2).take(5).enumerate() {
        let &[n0, n1] = value else { unreachable!() };
        let string = format!("link {i}");
        assert_eq!(g.links_count(), i);
        assert!(g.add_link(string, (n0, n1)).is_none());
        assert_eq!(g.links_count(), i + 1);
        test_neighbors(&g);
    }

    g.remove_node(nodes[1]).unwrap();
    test_neighbors(&g);

    assert_eq!(g.nodes_count(), 9);
    assert_eq!(g.links_count(), 3);

    assert!(!g.contains_link((nodes[0], nodes[1])));
    assert!(!g.contains_link((nodes[1], nodes[2])));

    test_serde_roundtrip(g);
}

/// Ensures all of the internal invariants have been upheld.
fn test_neighbors(graph: &Graph<String, String>) {
    for id in graph.nodes_ids() {
        let neighbors = graph
            .get_node_neighbors(id)
            .unwrap()
            .into_iter()
            .collect::<HashSet<Id<String>>>();
        let actual_neighbors = graph
            .links_ids()
            .into_iter()
            .filter_map(|pair| pair.other(&id).copied())
            .collect::<HashSet<Id<String>>>();
        assert_eq!(neighbors, actual_neighbors);
    }
}

fn graph_node_map(graph: &Graph<String, String>) -> HashMap<u64, String> {
    graph
        .nodes_ids()
        .into_iter()
        .map(|id| (id.into_raw(), graph.get_node_value(id).unwrap().clone()))
        .collect()
}

fn graph_link_map(graph: &Graph<String, String>) -> HashMap<(u64, u64), String> {
    graph
        .links_ids()
        .into_iter()
        .map(|pair| {
            let key = (pair.min().into_raw(), pair.max().into_raw());
            let value = graph.get_link_value((*pair.min(), *pair.max())).unwrap().clone();
            (key, value)
        })
        .collect()
}

fn test_serde_roundtrip(graph1: Graph<String, String>) {
    let nodes1 = graph_node_map(&graph1);
    let links1 = graph_link_map(&graph1);

    let parts1 = graph1.into_raw_parts();
    let string1 = ron::to_string(&parts1).expect("failed to serialize");
    let parts2: (Vec<(u64, String)>, Vec<((u64, u64), String)>) =
        ron::from_str(&string1).expect("failed to deserialize");
    let graph2 = Graph::from_raw_parts(parts2.0, parts2.1).expect("malformed graph parts");

    let nodes2 = graph_node_map(&graph2);
    assert_eq!(nodes1, nodes2);

    let links2 = graph_link_map(&graph2);
    assert_eq!(links1, links2);

    test_neighbors(&graph2);
}
