use subtree_clone::entities::{
    CloneError, MapNode, MapNodePhrasing, MapNodeRevision, MapNodeTag, NodeChildLink, Subtree,
    TagCloneHistory, TagLabels,
};
use subtree_clone::cloneop::{check_fresh_supply, check_subtree_wf, clone_subtree_plan};

fn node(id: &str, rev: &str) -> MapNode {
    MapNode { id: id.to_string(), c_currentRevision: rev.to_string(), extras: "node-extras".to_string() }
}

fn revision(id: &str, node: &str) -> MapNodeRevision {
    MapNodeRevision { id: id.to_string(), node: node.to_string(), extras: "rev-extras".to_string() }
}

fn phrasing(id: &str, node: &str) -> MapNodePhrasing {
    MapNodePhrasing { id: id.to_string(), node: node.to_string(), extras: "phr-extras".to_string() }
}

fn link(id: &str, parent: &str, child: &str) -> NodeChildLink {
    NodeChildLink { id: id.to_string(), parent: parent.to_string(), child: child.to_string(), extras: "link-extras".to_string() }
}

fn plain_tag(id: &str, nodes: &[&str]) -> MapNodeTag {
    MapNodeTag {
        id: id.to_string(),
        nodes: nodes.iter().map(|s| s.to_string()).collect(),
        labels: None,
        cloneHistory: None,
        extras: "tag-extras".to_string(),
    }
}

fn strings(xs: &[&str]) -> Vec<String> {
    xs.iter().map(|s| s.to_string()).collect()
}

fn basic_subtree() -> Subtree {
    Subtree {
        nodes: vec![node("A", "RA"), node("B", "RB")],
        nodeRevisions: vec![revision("RA", "A"), revision("RB", "B")],
        nodePhrasings: vec![phrasing("PA", "A")],
        nodeChildLinks: vec![link("L1", "A", "B")],
        nodeTags: vec![],
    }
}

#[test]
fn clones_every_entity_with_remapped_references() {
    let subtree = basic_subtree();
    assert!(check_subtree_wf(&subtree));
    let ids = subtree.get_all_ids();
    assert_eq!(ids, strings(&["A", "B", "RA", "RB", "PA", "L1"]));
    let fresh = strings(&["A2", "B2", "RA2", "RB2", "PA2", "L12"]);
    let parent = "P".to_string();
    let root = "A".to_string();
    let new_link_id = "NL".to_string();
    assert!(check_fresh_supply(&ids, &fresh, &new_link_id, &parent));
    let old_root_links = vec![link("LP", "P", "A")];
    let plan = clone_subtree_plan(&subtree, &parent, &root, &old_root_links, &fresh, &new_link_id)
        .expect("plan");

    assert_eq!(plan.rootLink.id, "NL");
    assert_eq!(plan.rootLink.parent, "P");
    assert_eq!(plan.rootLink.child, "A2");
    assert_eq!(plan.rootLink.extras, "link-extras");

    assert_eq!(plan.nodes.len(), 2);
    assert_eq!(plan.nodes[0].id, "A2");
    assert_eq!(plan.nodes[0].c_currentRevision, "RA2");
    assert_eq!(plan.nodes[0].extras, "node-extras");
    assert_eq!(plan.nodes[1].id, "B2");
    assert_eq!(plan.nodes[1].c_currentRevision, "RB2");

    assert_eq!(plan.nodeRevisions.len(), 2);
    assert_eq!(plan.nodeRevisions[0].id, "RA2");
    assert_eq!(plan.nodeRevisions[0].node, "A2");
    assert_eq!(plan.nodeRevisions[1].id, "RB2");
    assert_eq!(plan.nodeRevisions[1].node, "B2");

    assert_eq!(plan.nodePhrasings.len(), 1);
    assert_eq!(plan.nodePhrasings[0].id, "PA2");
    assert_eq!(plan.nodePhrasings[0].node, "A2");

    assert_eq!(plan.nodeChildLinks.len(), 1);
    assert_eq!(plan.nodeChildLinks[0].id, "L12");
    assert_eq!(plan.nodeChildLinks[0].parent, "A2");
    assert_eq!(plan.nodeChildLinks[0].child, "B2");

    assert!(plan.nodeTags.is_empty());
}

#[test]
fn label_tag_is_retargeted() {
    let mut subtree = basic_subtree();
    subtree.nodeTags.push(MapNodeTag {
        id: "T1".to_string(),
        nodes: strings(&["A", "B"]),
        labels: Some(TagLabels { nodeX: "A".to_string() }),
        cloneHistory: None,
        extras: "tag-extras".to_string(),
    });
    let ids = subtree.get_all_ids();
    let fresh = strings(&["A2", "B2", "RA2", "RB2", "PA2", "L12", "T12"]);
    let parent = "P".to_string();
    let root = "A".to_string();
    let new_link_id = "NL".to_string();
    assert!(check_fresh_supply(&ids, &fresh, &new_link_id, &parent));
    let old_root_links = vec![link("LP", "P", "A")];
    let plan = clone_subtree_plan(&subtree, &parent, &root, &old_root_links, &fresh, &new_link_id)
        .expect("plan");
    assert_eq!(plan.nodeTags.len(), 1);
    let tag = &plan.nodeTags[0];
    assert_eq!(tag.id, "T12");
    assert_eq!(tag.labels.as_ref().unwrap().nodeX, "A2");
    assert_eq!(tag.nodes, strings(&["A2", "B"]));
    assert!(tag.cloneHistory.is_none());
    assert_eq!(tag.extras, "tag-extras");
}

#[test]
fn clone_history_ending_at_root_is_extended() {
    let mut subtree = basic_subtree();
    subtree.nodeTags.push(MapNodeTag {
        id: "T1".to_string(),
        nodes: strings(&["X", "A"]),
        labels: None,
        cloneHistory: Some(TagCloneHistory { cloneChain: strings(&["X", "A"]) }),
        extras: "tag-extras".to_string(),
    });
    let ids = subtree.get_all_ids();
    let fresh = strings(&["A2", "B2", "RA2", "RB2", "PA2", "L12", "T12"]);
    let parent = "P".to_string();
    let root = "A".to_string();
    let new_link_id = "NL".to_string();
    assert!(check_fresh_supply(&ids, &fresh, &new_link_id, &parent));
    let old_root_links = vec![link("LP", "P", "A")];
    let plan = clone_subtree_plan(&subtree, &parent, &root, &old_root_links, &fresh, &new_link_id)
        .expect("plan");
    assert_eq!(plan.nodeTags.len(), 1);
    let tag = &plan.nodeTags[0];
    assert_eq!(tag.id, "T12");
    assert_eq!(tag.cloneHistory.as_ref().unwrap().cloneChain, strings(&["X", "A", "A2"]));
    assert_eq!(tag.nodes, strings(&["X", "A", "A2"]));
}

#[test]
fn clone_history_not_ending_at_root_is_excluded() {
    let mut subtree = basic_subtree();
    subtree.nodeTags.push(MapNodeTag {
        id: "T1".to_string(),
        nodes: strings(&["X", "Y"]),
        labels: None,
        cloneHistory: Some(TagCloneHistory { cloneChain: strings(&["X", "Y"]) }),
        extras: "tag-extras".to_string(),
    });
    subtree.nodeTags.push(plain_tag("T2", &["A"]));
    let ids = subtree.get_all_ids();
    let fresh = strings(&["A2", "B2", "RA2", "RB2", "PA2", "L12", "T12", "T22"]);
    let parent = "P".to_string();
    let root = "A".to_string();
    let new_link_id = "NL".to_string();
    assert!(check_fresh_supply(&ids, &fresh, &new_link_id, &parent));
    let old_root_links = vec![link("LP", "P", "A")];
    let plan = clone_subtree_plan(&subtree, &parent, &root, &old_root_links, &fresh, &new_link_id)
        .expect("plan");
    // The first tag documents provenance of the source only: not cloned.
    assert_eq!(plan.nodeTags.len(), 1);
    assert_eq!(plan.nodeTags[0].id, "T22");
    assert_eq!(plan.nodeTags[0].nodes, strings(&["A"]));
}

#[test]
fn empty_clone_history_is_excluded() {
    let mut subtree = basic_subtree();
    subtree.nodeTags.push(MapNodeTag {
        id: "T1".to_string(),
        nodes: strings(&[]),
        labels: None,
        cloneHistory: Some(TagCloneHistory { cloneChain: strings(&[]) }),
        extras: "tag-extras".to_string(),
    });
    let fresh = strings(&["A2", "B2", "RA2", "RB2", "PA2", "L12", "T12"]);
    let parent = "P".to_string();
    let root = "A".to_string();
    let new_link_id = "NL".to_string();
    let old_root_links = vec![link("LP", "P", "A")];
    let plan = clone_subtree_plan(&subtree, &parent, &root, &old_root_links, &fresh, &new_link_id)
        .expect("plan");
    assert!(plan.nodeTags.is_empty());
}

#[test]
fn plain_tag_keeps_its_node_memberships() {
    // A tag outside the two special shapes is cloned with only its identity
    // remapped; its memberships are not recomputed.
    let mut subtree = basic_subtree();
    subtree.nodeTags.push(plain_tag("T1", &["A", "Z"]));
    let fresh = strings(&["A2", "B2", "RA2", "RB2", "PA2", "L12", "T12"]);
    let parent = "P".to_string();
    let root = "A".to_string();
    let new_link_id = "NL".to_string();
    let old_root_links = vec![link("LP", "P", "A")];
    let plan = clone_subtree_plan(&subtree, &parent, &root, &old_root_links, &fresh, &new_link_id)
        .expect("plan");
    assert_eq!(plan.nodeTags.len(), 1);
    assert_eq!(plan.nodeTags[0].id, "T12");
    assert_eq!(plan.nodeTags[0].nodes, strings(&["A", "Z"]));
}

#[test]
fn missing_root_link_is_not_found() {
    let subtree = basic_subtree();
    let fresh = strings(&["A2", "B2", "RA2", "RB2", "PA2", "L12"]);
    let parent = "P".to_string();
    let root = "A".to_string();
    let new_link_id = "NL".to_string();
    // A candidate list with no link from P to A.
    let old_root_links = vec![link("LP", "Q", "A"), link("LQ", "P", "B")];
    let r = clone_subtree_plan(&subtree, &parent, &root, &old_root_links, &fresh, &new_link_id);
    match r {
        Err(e) => assert_eq!(e, CloneError::NotFound),
        Ok(_) => panic!("expected a NotFound error"),
    }
}

#[test]
fn dangling_reference_is_an_identity_lookup_error() {
    let mut subtree = basic_subtree();
    // A revision of a node outside the snapshot cannot be rewired.
    subtree.nodeRevisions.push(revision("RC", "C"));
    let ids = subtree.get_all_ids();
    let fresh = strings(&["A2", "B2", "RA2", "RB2", "RC2", "PA2", "L12"]);
    let parent = "P".to_string();
    let root = "A".to_string();
    let new_link_id = "NL".to_string();
    assert!(check_fresh_supply(&ids, &fresh, &new_link_id, &parent));
    let old_root_links = vec![link("LP", "P", "A")];
    let r = clone_subtree_plan(&subtree, &parent, &root, &old_root_links, &fresh, &new_link_id);
    match r {
        Err(e) => assert_eq!(e, CloneError::IdentityLookup),
        Ok(_) => panic!("expected an IdentityLookup error"),
    }
}

#[test]
fn first_matching_candidate_link_is_used() {
    let subtree = basic_subtree();
    let fresh = strings(&["A2", "B2", "RA2", "RB2", "PA2", "L12"]);
    let parent = "P".to_string();
    let root = "A".to_string();
    let new_link_id = "NL".to_string();
    let mut first = link("LP1", "P", "A");
    first.extras = "first-link".to_string();
    let mut second = link("LP2", "P", "A");
    second.extras = "second-link".to_string();
    let old_root_links = vec![link("LX", "Q", "A"), first, second];
    let plan = clone_subtree_plan(&subtree, &parent, &root, &old_root_links, &fresh, &new_link_id)
        .expect("plan");
    assert_eq!(plan.rootLink.extras, "first-link");
}

#[test]
fn two_clones_with_disjoint_fresh_ids_are_disjoint() {
    let subtree = basic_subtree();
    let parent = "P".to_string();
    let root = "A".to_string();
    let old_root_links = vec![link("LP", "P", "A")];
    let fresh1 = strings(&["A2", "B2", "RA2", "RB2", "PA2", "L12"]);
    let fresh2 = strings(&["A3", "B3", "RA3", "RB3", "PA3", "L13"]);
    let plan1 = clone_subtree_plan(&subtree, &parent, &root, &old_root_links, &fresh1, &"NL1".to_string())
        .expect("plan1");
    let plan2 = clone_subtree_plan(&subtree, &parent, &root, &old_root_links, &fresh2, &"NL2".to_string())
        .expect("plan2");
    let collect = |p: &subtree_clone::cloneop::ClonePlan| -> Vec<String> {
        let mut out = vec![p.rootLink.id.clone()];
        out.extend(p.nodes.iter().map(|n| n.id.clone()));
        out.extend(p.nodeRevisions.iter().map(|r| r.id.clone()));
        out.extend(p.nodePhrasings.iter().map(|ph| ph.id.clone()));
        out.extend(p.nodeChildLinks.iter().map(|l| l.id.clone()));
        out.extend(p.nodeTags.iter().map(|t| t.id.clone()));
        out
    };
    let ids1 = collect(&plan1);
    let ids2 = collect(&plan2);
    for x in &ids1 {
        assert!(!ids2.contains(x));
    }
    // And each run's identities are themselves pairwise distinct.
    for (i, x) in ids1.iter().enumerate() {
        for (j, y) in ids1.iter().enumerate() {
            if i != j {
                assert_ne!(x, y);
            }
        }
    }
}

#[test]
fn fresh_supply_check_rejects_bad_supplies() {
    let ids = strings(&["A", "B"]);
    let parent = "P".to_string();
    let link_id = "NL".to_string();
    // Too short.
    assert!(!check_fresh_supply(&ids, &strings(&["A2"]), &link_id, &parent));
    // A duplicate fresh identity.
    assert!(!check_fresh_supply(&ids, &strings(&["A2", "A2"]), &link_id, &parent));
    // A fresh identity colliding with an existing one.
    assert!(!check_fresh_supply(&ids, &strings(&["A", "B2"]), &link_id, &parent));
    // The attachment-link identity reused as an entity identity.
    assert!(!check_fresh_supply(&ids, &strings(&["NL", "B2"]), &link_id, &parent));
    // The parent identity handed out as fresh.
    assert!(!check_fresh_supply(&ids, &strings(&["P", "B2"]), &link_id, &parent));
    // A good supply.
    assert!(check_fresh_supply(&ids, &strings(&["A2", "B2"]), &link_id, &parent));
}

#[test]
fn duplicate_identities_fail_the_wellformedness_check() {
    let mut subtree = basic_subtree();
    subtree.nodeTags.push(plain_tag("A", &[]));
    assert!(!check_subtree_wf(&subtree));
}
