use ecoblock_storage::tangle::block::TangleBlock;
use ecoblock_storage::tangle::block::TangleBlockData;
use ecoblock_storage::tangle::graph::Graph;
use ecoblock_storage::tangle::signature::Signature;

fn block(id: &str, parents: &[&str]) -> TangleBlock {
    TangleBlock::from_parts(
        id.to_string(),
        TangleBlockData {
            parents: parents.iter().map(|p| p.to_string()).collect(),
            data: vec![1, 2, 3],
        },
        Signature(String::new()),
        String::new(),
    )
}

#[test]
fn new_graph_is_empty() {
    let graph = Graph::new();
    assert_eq!(graph.len(), 0);
    assert!(!graph.contains("a"));
    assert!(graph.get("a").is_none());
    assert!(graph.children("a").is_none());
}

#[test]
fn graph_insert_stores_the_block_and_makes_a_node() {
    let mut graph = Graph::new();
    graph.insert(block("a", &["z"]));
    assert_eq!(graph.len(), 1);
    assert!(graph.contains("a"));
    let stored = graph.get("a").unwrap();
    assert_eq!(stored.id, "a");
    assert_eq!(stored.parents, vec!["z".to_string()]);
    assert_eq!(graph.children("a").unwrap().len(), 0);
    // The parent is named, not checked: it is neither a block nor a node.
    assert!(!graph.contains("z"));
    assert!(graph.children("z").is_none());
}

#[test]
fn graph_insert_replaces_a_block_with_the_same_id() {
    let mut graph = Graph::new();
    graph.insert(block("a", &[]));
    graph.add_edge("a".to_string(), "b".to_string());
    graph.insert(block("a", &["z"]));
    assert_eq!(graph.len(), 1);
    assert_eq!(graph.get("a").unwrap().parents, vec!["z".to_string()]);
    let children = graph.children("a").unwrap();
    assert_eq!(children.len(), 1);
    assert!(children.contains("b"));
}

#[test]
fn add_node_registers_the_node() {
    let mut graph = Graph::new();
    graph.add_node("A".to_string());
    assert!(graph.contains("A"));
    assert!(!graph.contains("B"));
    assert_eq!(graph.len(), 1);
}

#[test]
fn add_node_is_idempotent_and_stores_no_block() {
    let mut graph = Graph::new();
    graph.add_node("a".to_string());
    graph.add_node("a".to_string());
    assert_eq!(graph.children("a").unwrap().len(), 0);
    assert_eq!(graph.len(), 1);
    assert!(graph.contains("a"));
    assert!(graph.get("a").is_none());
}

#[test]
fn add_node_keeps_the_children() {
    let mut graph = Graph::new();
    graph.add_edge("a".to_string(), "b".to_string());
    graph.add_node("a".to_string());
    let children = graph.children("a").unwrap();
    assert_eq!(children.len(), 1);
    assert!(children.contains("b"));
}

#[test]
fn add_edge_is_idempotent() {
    let mut graph = Graph::new();
    graph.add_edge("a".to_string(), "b".to_string());
    graph.add_edge("a".to_string(), "b".to_string());
    let children = graph.children("a").unwrap();
    assert_eq!(children.len(), 1);
    assert!(children.contains("b"));
}

#[test]
fn add_edge_registers_no_node() {
    let mut graph = Graph::new();
    graph.insert(block("n", &[]));
    graph.add_edge("a".to_string(), "b".to_string());
    assert!(graph.children("a").unwrap().contains("b"));
    assert!(graph.children("b").is_none());
    assert!(!graph.contains("a"));
    assert!(!graph.contains("b"));
    assert!(graph.contains("n"));
    assert_eq!(graph.len(), 1);
    assert!(graph.get("a").is_none());
    assert!(graph.get("n").is_some());
    assert_eq!(graph.children("n").unwrap().len(), 0);
}

#[test]
fn add_edge_on_a_node_changes_its_children_only() {
    let mut graph = Graph::new();
    graph.add_node("a".to_string());
    graph.add_node("b".to_string());
    graph.add_edge("a".to_string(), "b".to_string());
    assert_eq!(graph.len(), 2);
    assert!(graph.contains("a"));
    assert!(graph.contains("b"));
    assert!(graph.children("a").unwrap().contains("b"));
    // No edge back from the child.
    assert_eq!(graph.children("b").unwrap().len(), 0);
}

#[test]
fn a_stored_block_is_a_node() {
    let mut graph = Graph::new();
    graph.insert(block("a", &["z"]));
    assert!(graph.get("a").is_some());
    assert!(graph.contains("a"));
}

#[test]
fn edges_of_different_nodes_stay_apart() {
    let mut graph = Graph::new();
    graph.add_edge("a".to_string(), "b".to_string());
    graph.add_edge("c".to_string(), "d".to_string());
    graph.add_edge("a".to_string(), "e".to_string());
    let of_a = graph.children("a").unwrap();
    assert_eq!(of_a.len(), 2);
    assert!(of_a.contains("b"));
    assert!(of_a.contains("e"));
    assert!(!of_a.contains("d"));
    let of_c = graph.children("c").unwrap();
    assert_eq!(of_c.len(), 1);
    assert!(of_c.contains("d"));
}

#[test]
fn graph_counts_its_nodes() {
    let mut graph = Graph::new();
    graph.insert(block("a", &[]));
    graph.insert(block("b", &["a"]));
    graph.add_node("c".to_string());
    graph.add_node("a".to_string());
    assert_eq!(graph.len(), 3);
    assert!(graph.contains("a"));
    assert!(graph.contains("b"));
    assert!(graph.contains("c"));
    assert!(graph.get("a").is_some());
    assert!(graph.get("c").is_none());
}
