use std::collections::HashSet;

use graph_store::Graph;
use graph_store::GraphDecodeError;
use graph_store::Id;

fn neighbor_set(graph: &Graph<&'static str, &'static str>, id: Id<&'static str>) -> HashSet<u64> {
    graph
        .get_node_neighbors(id)
        .unwrap()
        .into_iter()
        .map(Id::into_raw)
        .collect()
}

#[test]
fn relink_replaces_payload_only() {
    let mut g: Graph<&str, &str> = Graph::new();
    let a = g.add_node("a");
    let b = g.add_node("b");
    let c = g.add_node("c");
    assert_eq!(g.add_link("ab first", (a, b)), None);
    assert_eq!(g.add_link("bc", (b, c)), None);

    let before_a = neighbor_set(&g, a);
    let before_b = neighbor_set(&g, b);

    assert_eq!(g.add_link("ab second", (a, b)), Some("ab first"));

    assert_eq!(neighbor_set(&g, a), before_a);
    assert_eq!(neighbor_set(&g, b), before_b);
    assert_eq!(g.links_count(), 2);
    assert_eq!(g.get_link_value((a, b)), Some(&"ab second"));
    assert_eq!(g.get_link_value((b, a)), Some(&"ab second"));
}

#[test]
fn remove_orphaned_removes_isolated_node() {
    let mut g: Graph<&str, &str> = Graph::new();
    let a = g.add_node("a");
    let b = g.add_node("b");
    let lone = g.add_node("lone");
    g.add_link("ab", (a, b));

    g.remove_orphaned_nodes();

    assert_eq!(g.nodes_count(), 2);
    assert!(g.contains_node(a));
    assert!(g.contains_node(b));
    assert!(!g.contains_node(lone));
}

#[test]
fn remove_orphaned_is_noop_when_all_linked() {
    let mut g: Graph<&str, &str> = Graph::new();
    let a = g.add_node("a");
    let b = g.add_node("b");
    let c = g.add_node("c");
    g.add_link("ab", (a, b));
    g.add_link("bc", (b, c));

    g.remove_orphaned_nodes();

    assert_eq!(g.nodes_count(), 3);
    assert!(g.contains_node(a) && g.contains_node(b) && g.contains_node(c));
    assert_eq!(g.links_count(), 2);
}

#[test]
fn remove_link_prunes_both_sides() {
    let mut g: Graph<&str, &str> = Graph::new();
    let a = g.add_node("a");
    let b = g.add_node("b");
    assert_eq!(g.remove_link((a, b)), None);
    g.add_link("ab", (a, b));
    assert_eq!(g.remove_link((b, a)), Some("ab"));
    assert_eq!(g.links_count(), 0);
    assert!(neighbor_set(&g, a).is_empty());
    assert!(neighbor_set(&g, b).is_empty());
}

#[test]
fn remove_node_cascades_links() {
    let mut g: Graph<&str, &str> = Graph::new();
    let a = g.add_node("a");
    let b = g.add_node("b");
    let c = g.add_node("c");
    g.add_link("ab", (a, b));
    g.add_link("bc", (b, c));
    g.add_link("ac", (a, c));

    let (value, removed) = g.remove_node(b).unwrap();
    assert_eq!(value, "b");
    let removed: HashSet<&str> = removed.into_iter().collect();
    assert_eq!(removed, HashSet::from(["ab", "bc"]));
    assert_eq!(g.nodes_count(), 2);
    assert_eq!(g.links_count(), 1);
    assert_eq!(g.get_link_value((a, c)), Some(&"ac"));
    assert_eq!(g.remove_node(b), None);
}

#[test]
fn node_and_link_queries() {
    let mut g: Graph<&str, &str> = Graph::new();
    let a = g.add_node("a");
    let b = g.add_node("b");
    let c = g.add_node("c");
    g.add_link("ab", (a, b));

    assert_eq!(g.node_neighbors_count(a), Some(1));
    assert_eq!(g.node_neighbors_count(c), Some(0));
    assert_eq!(g.node_neighbors_count(Id::from_raw(99)), None);
    assert_eq!(g.get_node_value(a), Some(&"a"));
    assert_eq!(g.get_node_value(Id::from_raw(99)), None);
    assert!(g.contains_node(b));
    assert!(!g.contains_node(Id::from_raw(99)));
    assert!(g.contains_link((b, a)));
    assert!(!g.contains_link((a, c)));

    assert_eq!(g.set_node_value(a, "a2"), "a");
    assert_eq!(g.get_node_value(a), Some(&"a2"));
    assert_eq!(g.set_link_value((b, a), "ab2"), "ab");
    assert_eq!(g.get_link_value((a, b)), Some(&"ab2"));
}

#[test]
fn extend_adds_links_in_order() {
    let mut g: Graph<&str, &str> = Graph::new();
    let a = g.add_node("a");
    let b = g.add_node("b");
    let c = g.add_node("c");
    g.extend(vec![((a, b), "ab"), ((b, c), "bc"), ((b, a), "ab late")]);
    assert_eq!(g.links_count(), 2);
    assert_eq!(g.get_link_value((a, b)), Some(&"ab late"));
    assert_eq!(g.get_link_value((b, c)), Some(&"bc"));
}

#[test]
fn decode_rejects_self_links() {
    let nodes = vec![(0u64, "n")];
    let links = vec![((1u64, 1u64), "loop")];
    let result: Result<Graph<&str, &str>, GraphDecodeError> =
        Graph::from_raw_parts(nodes, links);
    match result {
        Err(error) => assert_eq!(error, GraphDecodeError::SelfLink),
        Ok(_) => panic!("self-link accepted"),
    }
}

#[test]
fn decode_accepts_dangling_links_and_resumes_ids() {
    // A link key may reference node identifiers that have no node entry.
    let nodes = vec![(5u64, "five")];
    let links = vec![((1u64, 9u64), "dangling")];
    let mut g: Graph<&str, &str> = Graph::from_raw_parts(nodes, links).unwrap();
    assert_eq!(g.nodes_count(), 1);
    assert_eq!(g.links_count(), 1);
    assert_eq!(g.get_link_value((Id::from_raw(9), Id::from_raw(1))), Some(&"dangling"));
    assert_eq!(g.node_neighbors_count(Id::from_raw(5)), Some(0));

    // The counter resumes one beyond the greatest identifier seen anywhere.
    let fresh = g.add_node("fresh");
    assert_eq!(fresh.into_raw(), 10);
}

#[test]
fn decode_normalizes_and_deduplicates_link_keys() {
    let nodes = vec![(0u64, "a"), (1u64, "b"), (0u64, "a late")];
    let links = vec![((1u64, 0u64), "first"), ((0u64, 1u64), "second")];
    let g: Graph<&str, &str> = Graph::from_raw_parts(nodes, links).unwrap();
    assert_eq!(g.nodes_count(), 2);
    assert_eq!(g.get_node_value(Id::from_raw(0)), Some(&"a late"));
    assert_eq!(g.links_count(), 1);
    assert_eq!(g.get_link_value((Id::from_raw(0), Id::from_raw(1))), Some(&"second"));
    assert_eq!(
        g.get_node_neighbors(Id::from_raw(0)).unwrap(),
        vec![Id::from_raw(1)]
    );
}

#[test]
fn listings_pair_ids_with_values() {
    let mut g: Graph<&str, &str> = Graph::new();
    let a = g.add_node("a");
    let b = g.add_node("b");
    g.add_link("ab", (b, a));

    let nodes: HashSet<(u64, &str)> = g
        .nodes()
        .into_iter()
        .map(|(id, value)| (id.into_raw(), *value))
        .collect();
    assert_eq!(
        nodes,
        HashSet::from([(a.into_raw(), "a"), (b.into_raw(), "b")])
    );

    let links: Vec<((u64, u64), &str)> = g
        .links()
        .into_iter()
        .map(|(pair, value)| ((pair.min().into_raw(), pair.max().into_raw()), *value))
        .collect();
    assert_eq!(links, vec![((a.into_raw(), b.into_raw()), "ab")]);
}

#[test]
fn default_graph_is_empty() {
    let g: Graph<&str, &str> = Graph::default();
    assert_eq!(g.nodes_count(), 0);
    assert_eq!(g.links_count(), 0);
}
