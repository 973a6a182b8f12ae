//! The clone step proper: per-entity cloners that rewrite identities through
//! the remap, the tag retargeter with its clone / retarget / skip decision,
//! the root-attachment link, and the plan of all rows to write.
use vstd::prelude::*;

use crate::entities::{
    CloneError, MapNode, MapNodeRevision, MapNodePhrasing, NodeChildLink, MapNodeTag,
    TagLabels, TagCloneHistory, Subtree, NodeModel, RevisionModel, PhrasingModel,
    LinkModel, LabelsModel, CloneHistoryModel, TagModel, SubtreeModel, all_ids,
    distinct_seqs, subtree_wf, nodes_view, revisions_view, phrasings_view, links_view,
    tags_view, push_id, copy_ids, contains_id,
};
use crate::idmap::{id_map_view, id_map_get, pairs_map, seqs_disjoint, build_id_map};
use indexmap::IndexMap;

verus! {

// ---------------------------------------------------------------------------
// What each clone is, at the spec level
// ---------------------------------------------------------------------------

/// The clone of a node: fresh identity, current-revision reference rewritten,
/// everything else copied unchanged.
pub open spec fn remapped_node(m: Map<Seq<char>, Seq<char>>, n: NodeModel) -> NodeModel {
    NodeModel { id: m[n.id], current_revision: m[n.current_revision], extras: n.extras }
}

pub open spec fn node_keys_present(dom: Set<Seq<char>>, n: NodeModel) -> bool {
    dom.contains(n.id) && dom.contains(n.current_revision)
}

pub open spec fn remapped_revision(m: Map<Seq<char>, Seq<char>>, r: RevisionModel) -> RevisionModel {
    RevisionModel { id: m[r.id], node: m[r.node], extras: r.extras }
}

pub open spec fn revision_keys_present(dom: Set<Seq<char>>, r: RevisionModel) -> bool {
    dom.contains(r.id) && dom.contains(r.node)
}

pub open spec fn remapped_phrasing(m: Map<Seq<char>, Seq<char>>, p: PhrasingModel) -> PhrasingModel {
    PhrasingModel { id: m[p.id], node: m[p.node], extras: p.extras }
}

pub open spec fn phrasing_keys_present(dom: Set<Seq<char>>, p: PhrasingModel) -> bool {
    dom.contains(p.id) && dom.contains(p.node)
}

pub open spec fn remapped_link(m: Map<Seq<char>, Seq<char>>, l: LinkModel) -> LinkModel {
    LinkModel { id: m[l.id], parent: m[l.parent], child: m[l.child], extras: l.extras }
}

pub open spec fn link_keys_present(dom: Set<Seq<char>>, l: LinkModel) -> bool {
    dom.contains(l.id) && dom.contains(l.parent) && dom.contains(l.child)
}

/// `nodes` with every entry equal to `oldX` replaced by `newX`.
pub open spec fn retargeted_nodes(nodes: Seq<Seq<char>>, oldX: Seq<char>, newX: Seq<char>) -> Seq<Seq<char>> {
    nodes.map_values(|x: Seq<char>| if x == oldX { newX } else { x })
}

/// Whether the tag carries a clone-history chain whose last entry is the
/// root being cloned: such a tag is remap-extended.
pub open spec fn tag_extends(root: Seq<char>, t: TagModel) -> bool {
    match t.cloneHistory {
        Some(h) => h.cloneChain.len() > 0 && h.cloneChain.last() == root,
        None => false,
    }
}

/// The identities a tag clone has to look up in the remap.
pub open spec fn tag_keys_present(m: Map<Seq<char>, Seq<char>>, root: Seq<char>, t: TagModel) -> bool {
    m.dom().contains(t.id)
    && (match t.labels {
        Some(l) => m.dom().contains(l.nodeX),
        None => true,
    })
    && (tag_extends(root, t) ==> m.dom().contains(root))
}

/// The per-tag decision: `Some` clone with retargeted labels and an extended
/// history chain, or `None` when the tag is excluded from the clone.
pub open spec fn tag_clone_spec(m: Map<Seq<char>, Seq<char>>, root: Seq<char>, t: TagModel) -> Option<TagModel> {
    let nodes1 = match t.labels {
        Some(l) => retargeted_nodes(t.nodes, l.nodeX, m[l.nodeX]),
        None => t.nodes,
    };
    let labels1 = match t.labels {
        Some(l) => Some(LabelsModel { nodeX: m[l.nodeX] }),
        None => None,
    };
    match t.cloneHistory {
        None => Some(TagModel { id: m[t.id], nodes: nodes1, labels: labels1, cloneHistory: None, extras: t.extras }),
        Some(h) => if h.cloneChain.len() > 0 && h.cloneChain.last() == root {
            Some(TagModel {
                id: m[t.id],
                nodes: nodes1.push(m[root]),
                labels: labels1,
                cloneHistory: Some(CloneHistoryModel { cloneChain: h.cloneChain.push(m[root]) }),
                extras: t.extras,
            })
        } else {
            None
        },
    }
}

// ---------------------------------------------------------------------------
// Executable cloners
// ---------------------------------------------------------------------------

/// Clones one node, rewriting its identity and its current-revision
/// reference through the remap.
pub fn clone_node(n: &MapNode, m: &IndexMap<String, String>) -> (r: Result<MapNode, CloneError>)
    ensures
        match r {
            Ok(c) => node_keys_present(id_map_view(*m).dom(), n@)
                && c@ == remapped_node(id_map_view(*m), n@),
            Err(e) => e == CloneError::IdentityLookup && !node_keys_present(id_map_view(*m).dom(), n@),
        },
{
    let new_id = match id_map_get(m, &n.id) {
        Some(v) => v.clone(),
        None => { return Err(CloneError::IdentityLookup); },
    };
    let new_rev = match id_map_get(m, &n.c_currentRevision) {
        Some(v) => v.clone(),
        None => { return Err(CloneError::IdentityLookup); },
    };
    Ok(MapNode { id: new_id, c_currentRevision: new_rev, extras: n.extras.clone() })
}

/// Clones one revision, rewriting its identity and its node reference.
pub fn clone_revision(rv: &MapNodeRevision, m: &IndexMap<String, String>) -> (r: Result<MapNodeRevision, CloneError>)
    ensures
        match r {
            Ok(c) => revision_keys_present(id_map_view(*m).dom(), rv@)
                && c@ == remapped_revision(id_map_view(*m), rv@),
            Err(e) => e == CloneError::IdentityLookup && !revision_keys_present(id_map_view(*m).dom(), rv@),
        },
{
    let new_id = match id_map_get(m, &rv.id) {
        Some(v) => v.clone(),
        None => { return Err(CloneError::IdentityLookup); },
    };
    let new_node = match id_map_get(m, &rv.node) {
        Some(v) => v.clone(),
        None => { return Err(CloneError::IdentityLookup); },
    };
    Ok(MapNodeRevision { id: new_id, node: new_node, extras: rv.extras.clone() })
}

/// Clones one phrasing, rewriting its identity and its node reference.
pub fn clone_phrasing(p: &MapNodePhrasing, m: &IndexMap<String, String>) -> (r: Result<MapNodePhrasing, CloneError>)
    ensures
        match r {
            Ok(c) => phrasing_keys_present(id_map_view(*m).dom(), p@)
                && c@ == remapped_phrasing(id_map_view(*m), p@),
            Err(e) => e == CloneError::IdentityLookup && !phrasing_keys_present(id_map_view(*m).dom(), p@),
        },
{
    let new_id = match id_map_get(m, &p.id) {
        Some(v) => v.clone(),
        None => { return Err(CloneError::IdentityLookup); },
    };
    let new_node = match id_map_get(m, &p.node) {
        Some(v) => v.clone(),
        None => { return Err(CloneError::IdentityLookup); },
    };
    Ok(MapNodePhrasing { id: new_id, node: new_node, extras: p.extras.clone() })
}

/// Clones one child-link internal to the subtree, rewriting its identity and
/// both endpoints.
pub fn clone_link(l: &NodeChildLink, m: &IndexMap<String, String>) -> (r: Result<NodeChildLink, CloneError>)
    ensures
        match r {
            Ok(c) => link_keys_present(id_map_view(*m).dom(), l@)
                && c@ == remapped_link(id_map_view(*m), l@),
            Err(e) => e == CloneError::IdentityLookup && !link_keys_present(id_map_view(*m).dom(), l@),
        },
{
    let new_id = match id_map_get(m, &l.id) {
        Some(v) => v.clone(),
        None => { return Err(CloneError::IdentityLookup); },
    };
    let new_parent = match id_map_get(m, &l.parent) {
        Some(v) => v.clone(),
        None => { return Err(CloneError::IdentityLookup); },
    };
    let new_child = match id_map_get(m, &l.child) {
        Some(v) => v.clone(),
        None => { return Err(CloneError::IdentityLookup); },
    };
    Ok(NodeChildLink { id: new_id, parent: new_parent, child: new_child, extras: l.extras.clone() })
}

/// Clones one tag, or decides to exclude it.
///
/// A `labels` sub-record is retargeted: `nodeX` is rewritten, and every entry
/// of `nodes` equal to the old `nodeX` is replaced by the new value. A
/// `cloneHistory` sub-record is remap-extended when its chain ends in the
/// root being cloned, and excludes the tag from the clone otherwise.
pub fn clone_tag(t: &MapNodeTag, m: &IndexMap<String, String>, rootNodeID: &String) -> (r: Result<Option<MapNodeTag>, CloneError>)
    ensures
        match r {
            Ok(o) => tag_keys_present(id_map_view(*m), rootNodeID@, t@)
                && (match o {
                    Some(c) => tag_clone_spec(id_map_view(*m), rootNodeID@, t@) == Some(c@),
                    None => tag_clone_spec(id_map_view(*m), rootNodeID@, t@) is None,
                }),
            Err(e) => e == CloneError::IdentityLookup
                && !tag_keys_present(id_map_view(*m), rootNodeID@, t@),
        },
{
    let ghost gm = id_map_view(*m);
    let new_id = match id_map_get(m, &t.id) {
        Some(v) => v.clone(),
        None => { return Err(CloneError::IdentityLookup); },
    };
    let mut nodes: Vec<String>;
    let new_labels: Option<TagLabels>;
    match &t.labels {
        Some(l) => {
            let new_x = match id_map_get(m, &l.nodeX) {
                Some(v) => v.clone(),
                None => { return Err(CloneError::IdentityLookup); },
            };
            let mut acc: Vec<String> = Vec::new();
            let mut i: usize = 0;
            proof {
                assert(acc.deep_view() =~= retargeted_nodes(t.nodes.deep_view().take(0), l.nodeX@, new_x@));
            }
            while i < t.nodes.len()
                invariant
                    i <= t.nodes@.len(),
                    gm.dom().contains(l.nodeX@),
                    new_x@ == gm[l.nodeX@],
                    acc.deep_view() == retargeted_nodes(t.nodes.deep_view().take(i as int), l.nodeX@, new_x@),
                decreases t.nodes@.len() - i,
            {
                if t.nodes[i] == l.nodeX {
                    push_id(&mut acc, &new_x);
                } else {
                    push_id(&mut acc, &t.nodes[i]);
                }
                proof {
                    assert(acc.deep_view() =~= retargeted_nodes(t.nodes.deep_view().take(i + 1), l.nodeX@, new_x@));
                }
                i = i + 1;
            }
            proof {
                assert(t.nodes.deep_view().take(t.nodes@.len() as int) =~= t.nodes.deep_view());
            }
            nodes = acc;
            new_labels = Some(TagLabels { nodeX: new_x });
        },
        None => {
            nodes = copy_ids(&t.nodes);
            new_labels = None;
        },
    }
    let new_history: Option<TagCloneHistory>;
    match &t.cloneHistory {
        Some(h) => {
            let chain_len = h.cloneChain.len();
            if chain_len == 0 {
                return Ok(None);
            }
            let is_root = h.cloneChain[chain_len - 1] == *rootNodeID;
            if !is_root {
                return Ok(None);
            }
            let new_root = match id_map_get(m, rootNodeID) {
                Some(v) => v.clone(),
                None => { return Err(CloneError::IdentityLookup); },
            };
            let mut chain = copy_ids(&h.cloneChain);
            push_id(&mut chain, &new_root);
            push_id(&mut nodes, &new_root);
            proof {
                assert(chain.deep_view() =~= h.cloneChain.deep_view().push(gm[rootNodeID@]));
                assert(nodes.deep_view() =~= (match t@.labels {
                    Some(lm) => retargeted_nodes(t@.nodes, lm.nodeX, gm[lm.nodeX]),
                    None => t@.nodes,
                }).push(gm[rootNodeID@]));
            }
            new_history = Some(TagCloneHistory { cloneChain: chain });
        },
        None => {
            new_history = None;
        },
    }
    let c = MapNodeTag {
        id: new_id,
        nodes,
        labels: new_labels,
        cloneHistory: new_history,
        extras: t.extras.clone(),
    };
    proof {
        assert(tag_clone_spec(gm, rootNodeID@, t@) == Some(c@));
    }
    Ok(Some(c))
}

// ---------------------------------------------------------------------------
// The write plan
// ---------------------------------------------------------------------------

/// Everything the clone operation writes, in write order: the root-attachment
/// link first (constraint checking is deferred, so it may precede the node
/// clones it references), then the cloned nodes, revisions, phrasings,
/// child-links, and the cloned-or-retargeted tags.
pub struct ClonePlan {
    pub rootLink: NodeChildLink,
    pub nodes: Vec<MapNode>,
    pub nodeRevisions: Vec<MapNodeRevision>,
    pub nodePhrasings: Vec<MapNodePhrasing>,
    pub nodeChildLinks: Vec<NodeChildLink>,
    pub nodeTags: Vec<MapNodeTag>,
}

pub open spec fn link_matches(l: LinkModel, parent: Seq<char>, child: Seq<char>) -> bool {
    l.parent == parent && l.child == child
}

pub open spec fn has_matching_link(links: Seq<LinkModel>, parent: Seq<char>, child: Seq<char>) -> bool {
    exists|i: int| 0 <= i < links.len() && link_matches(#[trigger] links[i], parent, child)
}

/// What the caller-supplied fresh identities must satisfy, as the external
/// generator guarantees: as many as there are entities, pairwise distinct,
/// and distinct from every identity already in play (the subtree's, the
/// attachment link's, and the caller-supplied parent's).
pub open spec fn fresh_supply_ok(ids: Seq<Seq<char>>, fresh: Seq<Seq<char>>, link_id: Seq<char>, parent: Seq<char>) -> bool {
    fresh.len() == ids.len()
    && distinct_seqs(fresh)
    && seqs_disjoint(ids, fresh)
    && !fresh.contains(link_id)
    && !ids.contains(link_id)
    && !fresh.contains(parent)
}

pub open spec fn nodes_cloned(m: Map<Seq<char>, Seq<char>>, olds: Seq<NodeModel>, news: Seq<NodeModel>) -> bool {
    news.len() == olds.len()
    && forall|i: int| 0 <= i < olds.len() ==> #[trigger] news[i] == remapped_node(m, olds[i])
}

pub open spec fn revisions_cloned(m: Map<Seq<char>, Seq<char>>, olds: Seq<RevisionModel>, news: Seq<RevisionModel>) -> bool {
    news.len() == olds.len()
    && forall|i: int| 0 <= i < olds.len() ==> #[trigger] news[i] == remapped_revision(m, olds[i])
}

pub open spec fn phrasings_cloned(m: Map<Seq<char>, Seq<char>>, olds: Seq<PhrasingModel>, news: Seq<PhrasingModel>) -> bool {
    news.len() == olds.len()
    && forall|i: int| 0 <= i < olds.len() ==> #[trigger] news[i] == remapped_phrasing(m, olds[i])
}

pub open spec fn links_cloned(m: Map<Seq<char>, Seq<char>>, olds: Seq<LinkModel>, news: Seq<LinkModel>) -> bool {
    news.len() == olds.len()
    && forall|i: int| 0 <= i < olds.len() ==> #[trigger] news[i] == remapped_link(m, olds[i])
}

/// The tags written by the clone, in order: each original tag's decision
/// applied, with the excluded tags left out.
pub open spec fn tags_clone_spec(m: Map<Seq<char>, Seq<char>>, root: Seq<char>, ts: Seq<TagModel>) -> Seq<TagModel>
    decreases ts.len(),
{
    if ts.len() == 0 {
        Seq::empty()
    } else {
        let rest = tags_clone_spec(m, root, ts.drop_last());
        match tag_clone_spec(m, root, ts.last()) {
            Some(c) => rest.push(c),
            None => rest,
        }
    }
}

/// Every foreign reference of every entity in the snapshot resolves in the
/// remap: the subtree is referentially self-contained (the root included).
pub open spec fn refs_closed(m: Map<Seq<char>, Seq<char>>, root: Seq<char>, s: SubtreeModel) -> bool {
    m.dom().contains(root)
    && (forall|i: int| 0 <= i < s.nodes.len() ==> node_keys_present(m.dom(), #[trigger] s.nodes[i]))
    && (forall|i: int| 0 <= i < s.nodeRevisions.len() ==> revision_keys_present(m.dom(), #[trigger] s.nodeRevisions[i]))
    && (forall|i: int| 0 <= i < s.nodePhrasings.len() ==> phrasing_keys_present(m.dom(), #[trigger] s.nodePhrasings[i]))
    && (forall|i: int| 0 <= i < s.nodeChildLinks.len() ==> link_keys_present(m.dom(), #[trigger] s.nodeChildLinks[i]))
    && (forall|i: int| 0 <= i < s.nodeTags.len() ==> tag_keys_present(m, root, #[trigger] s.nodeTags[i]))
}

/// The root-attachment link: the first child-link connecting the supplied
/// parent to the original root, copied with a fresh identity and its child
/// rewritten to the root's new identity; its parent is left unchanged.
pub open spec fn root_link_ok(nl: LinkModel, cand: Seq<LinkModel>, parent: Seq<char>, root: Seq<char>, m: Map<Seq<char>, Seq<char>>, link_id: Seq<char>) -> bool {
    exists|i: int| 0 <= i < cand.len() && link_matches(#[trigger] cand[i], parent, root)
        && (forall|j: int| 0 <= j < i ==> !link_matches(#[trigger] cand[j], parent, root))
        && nl == (LinkModel { id: link_id, parent: parent, child: m[root], extras: cand[i].extras })
}

/// The full contract of [`clone_subtree_plan`].
///
/// With the remap fixed as `ids[i] -> fresh[i]`: success yields the plan that
/// clones every entity with rewritten references and applies every tag
/// decision; `NotFound` is returned exactly when no candidate link connects
/// the parent to the root; `IdentityLookup` exactly when the link exists but
/// some reference does not resolve in the remap.
pub open spec fn clone_plan_post(
    r: Result<ClonePlan, CloneError>,
    s: SubtreeModel,
    parent: Seq<char>,
    root: Seq<char>,
    cand_links: Seq<LinkModel>,
    fresh: Seq<Seq<char>>,
    link_id: Seq<char>,
) -> bool {
    let m = pairs_map(all_ids(s), fresh);
    match r {
        Ok(p) => has_matching_link(cand_links, parent, root)
            && refs_closed(m, root, s)
            && root_link_ok(p.rootLink@, cand_links, parent, root, m, link_id)
            && nodes_cloned(m, s.nodes, nodes_view(p.nodes@))
            && revisions_cloned(m, s.nodeRevisions, revisions_view(p.nodeRevisions@))
            && phrasings_cloned(m, s.nodePhrasings, phrasings_view(p.nodePhrasings@))
            && links_cloned(m, s.nodeChildLinks, links_view(p.nodeChildLinks@))
            && tags_view(p.nodeTags@) == tags_clone_spec(m, root, s.nodeTags),
        Err(e) => (e == CloneError::NotFound && !has_matching_link(cand_links, parent, root))
            || (e == CloneError::IdentityLookup && has_matching_link(cand_links, parent, root)
                && !refs_closed(m, root, s)),
    }
}

/// Whether a list of identities is pairwise distinct.
pub fn distinct_ids(v: &Vec<String>) -> (b: bool)
    ensures
        b == distinct_seqs(v.deep_view()),
{
    let mut i: usize = 0;
    while i < v.len()
        invariant
            i <= v@.len(),
            forall|x: int, y: int| 0 <= x < i && x < y < v@.len() ==> v.deep_view()[x] != v.deep_view()[y],
        decreases v@.len() - i,
    {
        let mut j: usize = i + 1;
        while j < v.len()
            invariant
                i < j <= v@.len() || (i + 1 == j && j >= v@.len()),
                i < v@.len(),
                forall|y: int| i < y < j ==> v.deep_view()[i as int] != v.deep_view()[y],
            decreases v@.len() - j,
        {
            if v[i] == v[j] {
                proof {
                    assert(v.deep_view()[i as int] == v.deep_view()[j as int]);
                }
                return false;
            }
            j = j + 1;
        }
        i = i + 1;
    }
    true
}

/// Whether no identity occurs in both lists.
pub fn disjoint_ids(a: &Vec<String>, b: &Vec<String>) -> (r: bool)
    ensures
        r == seqs_disjoint(a.deep_view(), b.deep_view()),
{
    let mut i: usize = 0;
    while i < a.len()
        invariant
            i <= a@.len(),
            forall|x: int, y: int| 0 <= x < i && 0 <= y < b@.len() ==> a.deep_view()[x] != b.deep_view()[y],
        decreases a@.len() - i,
    {
        let mut j: usize = 0;
        while j < b.len()
            invariant
                j <= b@.len(),
                i < a@.len(),
                forall|y: int| 0 <= y < j ==> a.deep_view()[i as int] != b.deep_view()[y],
            decreases b@.len() - j,
        {
            if a[i] == b[j] {
                proof {
                    assert(a.deep_view()[i as int] == b.deep_view()[j as int]);
                }
                return false;
            }
            j = j + 1;
        }
        i = i + 1;
    }
    true
}

/// Whether the snapshot's identities are pairwise distinct across all five
/// tables, as globally unique identities are.
pub fn check_subtree_wf(s: &Subtree) -> (b: bool)
    ensures
        b == subtree_wf(s@),
{
    let ids = s.get_all_ids();
    distinct_ids(&ids)
}

/// Whether the generated identities meet what [`clone_subtree_plan`]
/// requires of them; a caller tests this before planning and treats a
/// failure as a defect of the identity generator.
pub fn check_fresh_supply(ids: &Vec<String>, fresh: &Vec<String>, link_id: &String, parent: &String) -> (b: bool)
    ensures
        b == fresh_supply_ok(ids.deep_view(), fresh.deep_view(), link_id@, parent@),
{
    if fresh.len() != ids.len() {
        return false;
    }
    if !distinct_ids(fresh) {
        return false;
    }
    if !disjoint_ids(ids, fresh) {
        return false;
    }
    if contains_id(fresh, link_id) {
        return false;
    }
    if contains_id(ids, link_id) {
        return false;
    }
    if contains_id(fresh, parent) {
        return false;
    }
    true
}

/// Computes the complete write plan of one subtree-clone operation.
///
/// `subtree` is the fetched snapshot; `old_root_links` the candidate links
/// between `parentNodeID` and `rootNodeID` as the store returned them;
/// `fresh_ids` one generated identity per entity of the snapshot; and
/// `fresh_link_id` the generated identity of the root-attachment link.
#[verifier::loop_isolation(false)]
pub fn clone_subtree_plan(
    subtree: &Subtree,
    parentNodeID: &String,
    rootNodeID: &String,
    old_root_links: &Vec<NodeChildLink>,
    fresh_ids: &Vec<String>,
    fresh_link_id: &String,
) -> (r: Result<ClonePlan, CloneError>)
    requires
        subtree_wf(subtree@),
        fresh_supply_ok(all_ids(subtree@), fresh_ids.deep_view(), fresh_link_id@, parentNodeID@),
    ensures
        clone_plan_post(r, subtree@, parentNodeID@, rootNodeID@, links_view(old_root_links@), fresh_ids.deep_view(), fresh_link_id@),
{
    let ghost gm = pairs_map(all_ids(subtree@), fresh_ids.deep_view());
    let ghost cand = links_view(old_root_links@);
    let ids = subtree.get_all_ids();
    proof {
        assert(ids@.len() == ids.deep_view().len());
        assert(fresh_ids@.len() == fresh_ids.deep_view().len());
    }
    let m = build_id_map(&ids, fresh_ids);

    // Locate the existing child-link between the supplied parent and root.
    let total_links = old_root_links.len();
    let mut found: usize = total_links;
    let mut li: usize = 0;
    while li < total_links
        invariant
            total_links == old_root_links@.len(),
            cand == links_view(old_root_links@),
            li <= total_links,
            found <= total_links,
            found == total_links ==> forall|j: int| 0 <= j < li ==> !link_matches(#[trigger] cand[j], parentNodeID@, rootNodeID@),
            found < total_links ==> link_matches(cand[found as int], parentNodeID@, rootNodeID@)
                && (forall|j: int| 0 <= j < found ==> !link_matches(#[trigger] cand[j], parentNodeID@, rootNodeID@)),
        decreases total_links - li,
    {
        if found == total_links {
            let is_match = old_root_links[li].parent == *parentNodeID
                && old_root_links[li].child == *rootNodeID;
            if is_match {
                found = li;
            }
        }
        li = li + 1;
    }
    if found == total_links {
        proof {
            assert(!has_matching_link(cand, parentNodeID@, rootNodeID@));
        }
        return Err(CloneError::NotFound);
    }
    proof {
        assert(has_matching_link(cand, parentNodeID@, rootNodeID@));
    }

    // The attachment link: same attributes, fresh identity, child rewritten
    // to the root's new identity, parent left as supplied.
    let new_root_child = match id_map_get(&m, rootNodeID) {
        Some(v) => v.clone(),
        None => {
            proof {
                assert(!refs_closed(gm, rootNodeID@, subtree@));
            }
            return Err(CloneError::IdentityLookup);
        },
    };
    let rootLink = NodeChildLink {
        id: fresh_link_id.clone(),
        parent: parentNodeID.clone(),
        child: new_root_child,
        extras: old_root_links[found].extras.clone(),
    };
    proof {
        assert(root_link_ok(rootLink@, cand, parentNodeID@, rootNodeID@, gm, fresh_link_id@));
    }

    let mut new_nodes: Vec<MapNode> = Vec::new();
    let mut i: usize = 0;
    while i < subtree.nodes.len()
        invariant
            i <= subtree.nodes@.len(),
            id_map_view(m) == gm,
            new_nodes@.len() == i,
            forall|j: int| 0 <= j < i ==> (#[trigger] new_nodes@[j])@ == remapped_node(gm, subtree@.nodes[j]),
            forall|j: int| 0 <= j < i ==> node_keys_present(gm.dom(), #[trigger] subtree@.nodes[j]),
        decreases subtree.nodes@.len() - i,
    {
        proof {
            assert(subtree@.nodes[i as int] == subtree.nodes@[i as int]@);
        }
        match clone_node(&subtree.nodes[i], &m) {
            Ok(c) => { new_nodes.push(c); },
            Err(_) => {
                proof {
                    assert(!node_keys_present(gm.dom(), subtree@.nodes[i as int]));
                    assert(!refs_closed(gm, rootNodeID@, subtree@));
                }
                return Err(CloneError::IdentityLookup);
            },
        }
        i = i + 1;
    }

    let mut new_revisions: Vec<MapNodeRevision> = Vec::new();
    let mut i: usize = 0;
    while i < subtree.nodeRevisions.len()
        invariant
            i <= subtree.nodeRevisions@.len(),
            id_map_view(m) == gm,
            new_revisions@.len() == i,
            forall|j: int| 0 <= j < i ==> (#[trigger] new_revisions@[j])@ == remapped_revision(gm, subtree@.nodeRevisions[j]),
            forall|j: int| 0 <= j < i ==> revision_keys_present(gm.dom(), #[trigger] subtree@.nodeRevisions[j]),
        decreases subtree.nodeRevisions@.len() - i,
    {
        proof {
            assert(subtree@.nodeRevisions[i as int] == subtree.nodeRevisions@[i as int]@);
        }
        match clone_revision(&subtree.nodeRevisions[i], &m) {
            Ok(c) => { new_revisions.push(c); },
            Err(_) => {
                proof {
                    assert(!revision_keys_present(gm.dom(), subtree@.nodeRevisions[i as int]));
                    assert(!refs_closed(gm, rootNodeID@, subtree@));
                }
                return Err(CloneError::IdentityLookup);
            },
        }
        i = i + 1;
    }

    let mut new_phrasings: Vec<MapNodePhrasing> = Vec::new();
    let mut i: usize = 0;
    while i < subtree.nodePhrasings.len()
        invariant
            i <= subtree.nodePhrasings@.len(),
            id_map_view(m) == gm,
            new_phrasings@.len() == i,
            forall|j: int| 0 <= j < i ==> (#[trigger] new_phrasings@[j])@ == remapped_phrasing(gm, subtree@.nodePhrasings[j]),
            forall|j: int| 0 <= j < i ==> phrasing_keys_present(gm.dom(), #[trigger] subtree@.nodePhrasings[j]),
        decreases subtree.nodePhrasings@.len() - i,
    {
        proof {
            assert(subtree@.nodePhrasings[i as int] == subtree.nodePhrasings@[i as int]@);
        }
        match clone_phrasing(&subtree.nodePhrasings[i], &m) {
            Ok(c) => { new_phrasings.push(c); },
            Err(_) => {
                proof {
                    assert(!phrasing_keys_present(gm.dom(), subtree@.nodePhrasings[i as int]));
                    assert(!refs_closed(gm, rootNodeID@, subtree@));
                }
                return Err(CloneError::IdentityLookup);
            },
        }
        i = i + 1;
    }

    let mut new_links: Vec<NodeChildLink> = Vec::new();
    let mut i: usize = 0;
    while i < subtree.nodeChildLinks.len()
        invariant
            i <= subtree.nodeChildLinks@.len(),
            id_map_view(m) == gm,
            new_links@.len() == i,
            forall|j: int| 0 <= j < i ==> (#[trigger] new_links@[j])@ == remapped_link(gm, subtree@.nodeChildLinks[j]),
            forall|j: int| 0 <= j < i ==> link_keys_present(gm.dom(), #[trigger] subtree@.nodeChildLinks[j]),
        decreases subtree.nodeChildLinks@.len() - i,
    {
        proof {
            assert(subtree@.nodeChildLinks[i as int] == subtree.nodeChildLinks@[i as int]@);
        }
        match clone_link(&subtree.nodeChildLinks[i], &m) {
            Ok(c) => { new_links.push(c); },
            Err(_) => {
                proof {
                    assert(!link_keys_present(gm.dom(), subtree@.nodeChildLinks[i as int]));
                    assert(!refs_closed(gm, rootNodeID@, subtree@));
                }
                return Err(CloneError::IdentityLookup);
            },
        }
        i = i + 1;
    }

    let mut new_tags: Vec<MapNodeTag> = Vec::new();
    let mut i: usize = 0;
    proof {
        assert(tags_view(new_tags@) =~= tags_clone_spec(gm, rootNodeID@, subtree@.nodeTags.take(0)));
    }
    while i < subtree.nodeTags.len()
        invariant
            i <= subtree.nodeTags@.len(),
            id_map_view(m) == gm,
            tags_view(new_tags@) == tags_clone_spec(gm, rootNodeID@, subtree@.nodeTags.take(i as int)),
            forall|j: int| 0 <= j < i ==> tag_keys_present(gm, rootNodeID@, #[trigger] subtree@.nodeTags[j]),
        decreases subtree.nodeTags@.len() - i,
    {
        proof {
            assert(subtree@.nodeTags[i as int] == subtree.nodeTags@[i as int]@);
            assert(subtree@.nodeTags.take(i + 1).drop_last() =~= subtree@.nodeTags.take(i as int));
            assert(subtree@.nodeTags.take(i + 1).last() == subtree@.nodeTags[i as int]);
        }
        match clone_tag(&subtree.nodeTags[i], &m, rootNodeID) {
            Ok(Some(c)) => {
                new_tags.push(c);
                proof {
                    assert(tags_view(new_tags@) =~= tags_clone_spec(gm, rootNodeID@, subtree@.nodeTags.take(i + 1)));
                }
            },
            Ok(None) => {
                proof {
                    assert(tags_view(new_tags@) =~= tags_clone_spec(gm, rootNodeID@, subtree@.nodeTags.take(i + 1)));
                }
            },
            Err(_) => {
                proof {
                    assert(!tag_keys_present(gm, rootNodeID@, subtree@.nodeTags[i as int]));
                    assert(!refs_closed(gm, rootNodeID@, subtree@));
                }
                return Err(CloneError::IdentityLookup);
            },
        }
        i = i + 1;
    }
    proof {
        assert(subtree@.nodeTags.take(subtree.nodeTags@.len() as int) =~= subtree@.nodeTags);
    }

    let plan = ClonePlan {
        rootLink,
        nodes: new_nodes,
        nodeRevisions: new_revisions,
        nodePhrasings: new_phrasings,
        nodeChildLinks: new_links,
        nodeTags: new_tags,
    };
    proof {
        assert(refs_closed(gm, rootNodeID@, subtree@));
        assert(nodes_cloned(gm, subtree@.nodes, nodes_view(plan.nodes@)));
        assert(revisions_cloned(gm, subtree@.nodeRevisions, revisions_view(plan.nodeRevisions@)));
        assert(phrasings_cloned(gm, subtree@.nodePhrasings, phrasings_view(plan.nodePhrasings@)));
        assert(links_cloned(gm, subtree@.nodeChildLinks, links_view(plan.nodeChildLinks@)));
    }
    Ok(plan)
}

} // verus!
