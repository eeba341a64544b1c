use crsl::cid::ContentId;
use crsl::dag::DagGraph;
use crsl::errors::GraphError;
use crsl::metadata::ContentMetadata;
use crsl::node::Node;

fn cid(label: &[u8]) -> ContentId {
    ContentId::new(label).unwrap()
}

#[test]
fn test_add_genesis_node() {
    let mut dag = DagGraph::new();
    let g = dag.add_genesis_node("test".to_string(), ContentMetadata::new(), 1).unwrap();
    assert!(dag.get_node(&g).is_some());
}

#[test]
fn test_add_child_node() {
    let mut dag = DagGraph::new();
    let g = dag.add_genesis_node("genesis".to_string(), ContentMetadata::new(), 1).unwrap();
    let c = dag
        .add_child_node("child".to_string(), vec![g.clone()], g.clone(), 2, ContentMetadata::new())
        .unwrap();
    assert!(dag.get_node(&c).is_some());
}

// Builds an arbitrary adjacency over manufactured identifiers: each pair
// is a (parent, child) edge.
fn graph_of(edges: &[(&[u8], &[u8])], all: &[&[u8]]) -> DagGraph {
    let mut nodes: Vec<(ContentId, Node)> = Vec::new();
    for label in all {
        let parents: Vec<ContentId> = edges
            .iter()
            .filter(|(_, child)| child == label)
            .map(|(parent, _)| cid(parent))
            .collect();
        let node = if parents.is_empty() {
            Node::new_genesis(String::new(), 1, ContentMetadata::new())
        } else {
            Node::new_child(String::new(), parents, cid(b"root"), 1, ContentMetadata::new())
        };
        nodes.push((cid(label), node));
    }
    DagGraph { nodes }
}

#[test]
fn test_acyclic_in_simple_path() {
    let dag = graph_of(
        &[(b"node_a", b"node_b"), (b"node_b", b"node_c"), (b"node_c", b"node_d")],
        &[b"node_a", b"node_b", b"node_c", b"node_d"],
    );
    assert_eq!(dag.detect_cycle_cid(), false);
}

#[test]
fn test_empty_graph_has_acyclic() {
    let dag = DagGraph::new();
    assert_eq!(dag.detect_cycle_cid(), false);
}

#[test]
fn test_multi_path_acyclic_detection() {
    let dag = graph_of(
        &[
            (b"node_a", b"node_b"),
            (b"node_a", b"node_c"),
            (b"node_b", b"node_d"),
            (b"node_c", b"node_d"),
            (b"node_d", b"node_e"),
        ],
        &[b"node_a", b"node_b", b"node_c", b"node_d", b"node_e"],
    );
    assert_eq!(dag.detect_cycle_cid(), false);
}

#[test]
fn test_direct_cycle_detection() {
    let dag = graph_of(
        &[(b"node_a", b"node_b"), (b"node_b", b"node_c"), (b"node_c", b"node_a")],
        &[b"node_a", b"node_b", b"node_c"],
    );
    assert_eq!(dag.detect_cycle_cid(), true);
}

#[test]
fn test_multi_path_cycle_detection() {
    let dag = graph_of(
        &[
            (b"node_a", b"node_b"),
            (b"node_b", b"node_c"),
            (b"node_c", b"node_d"),
            (b"node_d", b"node_b"),
            (b"node_d", b"node_e"),
        ],
        &[b"node_a", b"node_b", b"node_c", b"node_d", b"node_e"],
    );
    assert_eq!(dag.detect_cycle_cid(), true);
}

#[test]
fn inserting_a_cycle_is_refused() {
    let mut dag = DagGraph::new();
    let g = dag.add_genesis_node("root".to_string(), ContentMetadata::new(), 1).unwrap();
    let child = dag
        .add_child_node("c".to_string(), vec![g.clone()], g.clone(), 2, ContentMetadata::new())
        .unwrap();
    // a node stored under an identifier it also names as its parent
    // closes a one-step cycle
    let x = cid(b"self-loop");
    let selfish = Node::new_child(
        "selfish".to_string(),
        vec![x.clone()],
        g.clone(),
        3,
        ContentMetadata::new(),
    );
    let before = dag.nodes.len();
    let r = dag.insert_node(x, selfish);
    assert!(matches!(r, Err(GraphError::CycleDetected)));
    assert_eq!(dag.nodes.len(), before);
    assert!(dag.get_node(&child).is_some());
}

#[test]
fn test_get_genesis_from_genesis_node() {
    let mut dag = DagGraph::new();
    let g = dag.add_genesis_node("genesis".to_string(), ContentMetadata::new(), 1).unwrap();
    assert_eq!(dag.get_genesis(&g).unwrap(), g);
}

#[test]
fn test_get_genesis_from_child_node() {
    let mut dag = DagGraph::new();
    let g = dag.add_genesis_node("genesis".to_string(), ContentMetadata::new(), 1).unwrap();
    let c = dag
        .add_child_node("child".to_string(), vec![g.clone()], g.clone(), 2, ContentMetadata::new())
        .unwrap();
    assert_eq!(dag.get_genesis(&c).unwrap(), g);
}

#[test]
fn test_get_genesis_node_not_found() {
    let dag = DagGraph::new();
    let missing = cid(b"non_existent");
    assert!(matches!(dag.get_genesis(&missing), Err(GraphError::NodeNotFound(_))));
}

#[test]
fn test_calculate_latest_genesis_only() {
    let mut dag = DagGraph::new();
    let g = dag.add_genesis_node("genesis".to_string(), ContentMetadata::new(), 1).unwrap();
    assert_eq!(dag.calculate_latest(&g), Some(g));
}

#[test]
fn test_calculate_latest_linear_history() {
    let mut dag = DagGraph::new();
    let g = dag.add_genesis_node("genesis".to_string(), ContentMetadata::new(), 1).unwrap();
    let v1 = dag
        .add_child_node("v1".to_string(), vec![g.clone()], g.clone(), 2, ContentMetadata::new())
        .unwrap();
    let v2 = dag
        .add_child_node("v2".to_string(), vec![v1.clone()], g.clone(), 3, ContentMetadata::new())
        .unwrap();
    assert_eq!(dag.calculate_latest(&g), Some(v2));
}

#[test]
fn test_calculate_latest_branched_history() {
    let mut dag = DagGraph::new();
    let g = dag.add_genesis_node("genesis".to_string(), ContentMetadata::new(), 1).unwrap();
    let _v2a = dag
        .add_child_node("v2a".to_string(), vec![g.clone()], g.clone(), 2, ContentMetadata::new())
        .unwrap();
    let v2b = dag
        .add_child_node("v2b".to_string(), vec![g.clone()], g.clone(), 3, ContentMetadata::new())
        .unwrap();
    // both branches are heads; the later timestamp wins
    assert_eq!(dag.calculate_latest(&g), Some(v2b));
}

#[test]
fn test_calculate_latest_nonexistent_genesis() {
    let dag = DagGraph::new();
    assert_eq!(dag.calculate_latest(&cid(b"non_existent")), None);
}

#[test]
fn test_get_nodes_by_genesis_genesis_only() {
    let mut dag = DagGraph::new();
    let g = dag.add_genesis_node("genesis".to_string(), ContentMetadata::new(), 1).unwrap();
    assert_eq!(dag.get_nodes_by_genesis(&g), vec![g]);
}

#[test]
fn test_get_nodes_by_genesis_with_children() {
    let mut dag = DagGraph::new();
    let g = dag.add_genesis_node("genesis".to_string(), ContentMetadata::new(), 1).unwrap();
    let c = dag
        .add_child_node("c".to_string(), vec![g.clone()], g.clone(), 2, ContentMetadata::new())
        .unwrap();
    let members = dag.get_nodes_by_genesis(&g);
    assert_eq!(members.len(), 2);
    assert!(members.contains(&g));
    assert!(members.contains(&c));
}

#[test]
fn test_get_nodes_by_genesis_excludes_unrelated() {
    let mut dag = DagGraph::new();
    let g1 = dag.add_genesis_node("genesis1".to_string(), ContentMetadata::new(), 1).unwrap();
    let g2 = dag.add_genesis_node("unrelated".to_string(), ContentMetadata::new(), 2).unwrap();
    let members = dag.get_nodes_by_genesis(&g1);
    assert!(members.contains(&g1));
    assert!(!members.contains(&g2));
}

#[test]
fn test_multiple_heads() {
    let mut dag = DagGraph::new();
    let g = dag.add_genesis_node("node_a".to_string(), ContentMetadata::new(), 1).unwrap();
    let b = dag
        .add_child_node("node_b".to_string(), vec![g.clone()], g.clone(), 2, ContentMetadata::new())
        .unwrap();
    let c = dag
        .add_child_node("node_c".to_string(), vec![g.clone()], g.clone(), 3, ContentMetadata::new())
        .unwrap();
    let heads = dag.find_heads(&g);
    assert_eq!(heads.len(), 2);
    assert!(heads.contains(&b));
    assert!(heads.contains(&c));
}
