use subtree_clone::entities::{
    CloneError, MapNode, MapNodePhrasing, MapNodeRevision, MapNodeTag, NodeChildLink,
};
use subtree_clone::fetch::{fetch_subtree, StoreSnapshot};

fn node(id: &str, rev: &str) -> MapNode {
    MapNode { id: id.to_string(), c_currentRevision: rev.to_string(), extras: String::new() }
}

fn revision(id: &str, node: &str) -> MapNodeRevision {
    MapNodeRevision { id: id.to_string(), node: node.to_string(), extras: String::new() }
}

fn phrasing(id: &str, node: &str) -> MapNodePhrasing {
    MapNodePhrasing { id: id.to_string(), node: node.to_string(), extras: String::new() }
}

fn link(id: &str, parent: &str, child: &str) -> NodeChildLink {
    NodeChildLink { id: id.to_string(), parent: parent.to_string(), child: child.to_string(), extras: String::new() }
}

fn tag(id: &str, nodes: &[&str]) -> MapNodeTag {
    MapNodeTag {
        id: id.to_string(),
        nodes: nodes.iter().map(|s| s.to_string()).collect(),
        labels: None,
        cloneHistory: None,
        extras: String::new(),
    }
}

/// A three-level store: A -> B -> C, with a row of each kind per node.
fn three_level_store() -> StoreSnapshot {
    StoreSnapshot {
        nodes: vec![node("A", "RA"), node("B", "RB"), node("C", "RC")],
        nodeRevisions: vec![revision("RA", "A"), revision("RB", "B"), revision("RC", "C")],
        nodePhrasings: vec![phrasing("PA", "A"), phrasing("PC", "C")],
        nodeChildLinks: vec![link("L1", "A", "B"), link("L2", "B", "C")],
        nodeTags: vec![tag("T1", &["A"]), tag("T2", &["C"]), tag("T3", &["Z", "B"])],
    }
}

fn ids_of_nodes(nodes: &[MapNode]) -> Vec<String> {
    nodes.iter().map(|n| n.id.clone()).collect()
}

#[test]
fn depth_one_fetches_root_and_direct_children_only() {
    let store = three_level_store();
    let root = "A".to_string();
    let sub = fetch_subtree(&store, &root, Some(1)).expect("fetch");
    assert_eq!(ids_of_nodes(&sub.nodes), vec!["A".to_string(), "B".to_string()]);
    let rev_ids: Vec<String> = sub.nodeRevisions.iter().map(|r| r.id.clone()).collect();
    assert_eq!(rev_ids, vec!["RA".to_string(), "RB".to_string()]);
    let phr_ids: Vec<String> = sub.nodePhrasings.iter().map(|p| p.id.clone()).collect();
    assert_eq!(phr_ids, vec!["PA".to_string()]);
    let link_ids: Vec<String> = sub.nodeChildLinks.iter().map(|l| l.id.clone()).collect();
    assert_eq!(link_ids, vec!["L1".to_string()]);
    let tag_ids: Vec<String> = sub.nodeTags.iter().map(|t| t.id.clone()).collect();
    assert_eq!(tag_ids, vec!["T1".to_string(), "T3".to_string()]);
}

#[test]
fn unbounded_fetch_collects_the_whole_subtree() {
    let store = three_level_store();
    let root = "A".to_string();
    let sub = fetch_subtree(&store, &root, None).expect("fetch");
    assert_eq!(ids_of_nodes(&sub.nodes), vec!["A".to_string(), "B".to_string(), "C".to_string()]);
    assert_eq!(sub.nodeRevisions.len(), 3);
    assert_eq!(sub.nodePhrasings.len(), 2);
    assert_eq!(sub.nodeChildLinks.len(), 2);
    assert_eq!(sub.nodeTags.len(), 3);
}

#[test]
fn fetch_from_mid_tree_ignores_the_levels_above() {
    let store = three_level_store();
    let root = "B".to_string();
    let sub = fetch_subtree(&store, &root, None).expect("fetch");
    assert_eq!(ids_of_nodes(&sub.nodes), vec!["B".to_string(), "C".to_string()]);
    let link_ids: Vec<String> = sub.nodeChildLinks.iter().map(|l| l.id.clone()).collect();
    assert_eq!(link_ids, vec!["L2".to_string()]);
}

#[test]
fn depth_zero_fetches_the_root_alone() {
    let store = three_level_store();
    let root = "A".to_string();
    let sub = fetch_subtree(&store, &root, Some(0)).expect("fetch");
    assert_eq!(ids_of_nodes(&sub.nodes), vec!["A".to_string()]);
    assert_eq!(sub.nodeChildLinks.len(), 0);
}

#[test]
fn missing_root_is_not_found() {
    let store = three_level_store();
    let root = "Z".to_string();
    let r = fetch_subtree(&store, &root, None);
    match r {
        Err(e) => assert_eq!(e, CloneError::NotFound),
        Ok(_) => panic!("expected a NotFound error"),
    }
}
