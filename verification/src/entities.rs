//! The entity types handled by the subtree-clone operation, the request
//! payload, the error taxonomy, and the mathematical models (views) that the
//! contracts speak of.
//!
//! Identities are opaque unique strings; at the spec level every identity is
//! a `Seq<char>` and every entity is mirrored by a ghost model struct.
use vstd::prelude::*;

verus! {

/// Request payload of the clone operation, as validated by the caller.
pub struct CloneSubtreePayload {
    pub parentNodeID: String,
    pub rootNodeID: String,
    pub maxDepth: Option<usize>,
}

/// Errors of the clone core. Persistence and commit failures belong to the
/// store layer around the library; validation failures to the request layer.
#[derive(Clone, Copy, PartialEq, Eq, Structural, Debug)]
pub enum CloneError {
    /// The root node does not exist, or no child-link connects the supplied
    /// parent to the supplied root.
    NotFound,
    /// An identity that the remap table was expected to cover is missing:
    /// a contract violation internal to the algorithm, not user-triggered.
    IdentityLookup,
}

/// A content node. `c_currentRevision` references a revision; the tree shape
/// itself is carried by `NodeChildLink` rows, not by the node.
pub struct MapNode {
    pub id: String,
    pub c_currentRevision: String,
    /// Remaining attributes (access policy, timestamps, ...), copied unchanged.
    pub extras: String,
}

/// A historical or current content snapshot of a node.
pub struct MapNodeRevision {
    pub id: String,
    pub node: String,
    /// Content payload, copied unchanged.
    pub extras: String,
}

/// An alternate wording of a node.
pub struct MapNodePhrasing {
    pub id: String,
    pub node: String,
    /// Text variant and remaining attributes, copied unchanged.
    pub extras: String,
}

/// A directed tree edge from `parent` to `child`.
pub struct NodeChildLink {
    pub id: String,
    pub parent: String,
    pub child: String,
    /// Remaining attributes (link kind, ordering, ...), copied unchanged.
    pub extras: String,
}

/// The `labels` sub-record of a tag: a labeling reference to one node.
pub struct TagLabels {
    pub nodeX: String,
}

/// The `cloneHistory` sub-record of a tag: an ordered chain of node
/// identities documenting successive clone provenance.
pub struct TagCloneHistory {
    pub cloneChain: Vec<String>,
}

/// Metadata attached to one or more nodes. The two optional sub-records
/// require special handling during a clone.
pub struct MapNodeTag {
    pub id: String,
    pub nodes: Vec<String>,
    pub labels: Option<TagLabels>,
    pub cloneHistory: Option<TagCloneHistory>,
    /// Remaining attributes, copied unchanged.
    pub extras: String,
}

// ---------------------------------------------------------------------------
// Ghost models
// ---------------------------------------------------------------------------

pub ghost struct NodeModel {
    pub id: Seq<char>,
    pub current_revision: Seq<char>,
    pub extras: Seq<char>,
}

pub ghost struct RevisionModel {
    pub id: Seq<char>,
    pub node: Seq<char>,
    pub extras: Seq<char>,
}

pub ghost struct PhrasingModel {
    pub id: Seq<char>,
    pub node: Seq<char>,
    pub extras: Seq<char>,
}

pub ghost struct LinkModel {
    pub id: Seq<char>,
    pub parent: Seq<char>,
    pub child: Seq<char>,
    pub extras: Seq<char>,
}

pub ghost struct LabelsModel {
    pub nodeX: Seq<char>,
}

pub ghost struct CloneHistoryModel {
    pub cloneChain: Seq<Seq<char>>,
}

pub ghost struct TagModel {
    pub id: Seq<char>,
    pub nodes: Seq<Seq<char>>,
    pub labels: Option<LabelsModel>,
    pub cloneHistory: Option<CloneHistoryModel>,
    pub extras: Seq<char>,
}

impl View for MapNode {
    type V = NodeModel;

    open spec fn view(&self) -> NodeModel {
        NodeModel { id: self.id@, current_revision: self.c_currentRevision@, extras: self.extras@ }
    }
}

impl View for MapNodeRevision {
    type V = RevisionModel;

    open spec fn view(&self) -> RevisionModel {
        RevisionModel { id: self.id@, node: self.node@, extras: self.extras@ }
    }
}

impl View for MapNodePhrasing {
    type V = PhrasingModel;

    open spec fn view(&self) -> PhrasingModel {
        PhrasingModel { id: self.id@, node: self.node@, extras: self.extras@ }
    }
}

impl View for NodeChildLink {
    type V = LinkModel;

    open spec fn view(&self) -> LinkModel {
        LinkModel { id: self.id@, parent: self.parent@, child: self.child@, extras: self.extras@ }
    }
}

impl View for TagLabels {
    type V = LabelsModel;

    open spec fn view(&self) -> LabelsModel {
        LabelsModel { nodeX: self.nodeX@ }
    }
}

impl View for TagCloneHistory {
    type V = CloneHistoryModel;

    open spec fn view(&self) -> CloneHistoryModel {
        CloneHistoryModel { cloneChain: self.cloneChain.deep_view() }
    }
}

impl View for MapNodeTag {
    type V = TagModel;

    open spec fn view(&self) -> TagModel {
        TagModel {
            id: self.id@,
            nodes: self.nodes.deep_view(),
            labels: match self.labels {
                Some(l) => Some(l@),
                None => None,
            },
            cloneHistory: match self.cloneHistory {
                Some(h) => Some(h@),
                None => None,
            },
            extras: self.extras@,
        }
    }
}

// ---------------------------------------------------------------------------
// The subtree snapshot
// ---------------------------------------------------------------------------

/// The self-contained structural snapshot returned by the fetcher: every
/// entity reachable from the root within the depth bound.
pub struct Subtree {
    pub nodes: Vec<MapNode>,
    pub nodeRevisions: Vec<MapNodeRevision>,
    pub nodePhrasings: Vec<MapNodePhrasing>,
    pub nodeChildLinks: Vec<NodeChildLink>,
    pub nodeTags: Vec<MapNodeTag>,
}

pub ghost struct SubtreeModel {
    pub nodes: Seq<NodeModel>,
    pub nodeRevisions: Seq<RevisionModel>,
    pub nodePhrasings: Seq<PhrasingModel>,
    pub nodeChildLinks: Seq<LinkModel>,
    pub nodeTags: Seq<TagModel>,
}

pub open spec fn nodes_view(s: Seq<MapNode>) -> Seq<NodeModel> {
    s.map_values(|n: MapNode| n@)
}

pub open spec fn revisions_view(s: Seq<MapNodeRevision>) -> Seq<RevisionModel> {
    s.map_values(|r: MapNodeRevision| r@)
}

pub open spec fn phrasings_view(s: Seq<MapNodePhrasing>) -> Seq<PhrasingModel> {
    s.map_values(|p: MapNodePhrasing| p@)
}

pub open spec fn links_view(s: Seq<NodeChildLink>) -> Seq<LinkModel> {
    s.map_values(|l: NodeChildLink| l@)
}

pub open spec fn tags_view(s: Seq<MapNodeTag>) -> Seq<TagModel> {
    s.map_values(|t: MapNodeTag| t@)
}

impl View for Subtree {
    type V = SubtreeModel;

    open spec fn view(&self) -> SubtreeModel {
        SubtreeModel {
            nodes: nodes_view(self.nodes@),
            nodeRevisions: revisions_view(self.nodeRevisions@),
            nodePhrasings: phrasings_view(self.nodePhrasings@),
            nodeChildLinks: links_view(self.nodeChildLinks@),
            nodeTags: tags_view(self.nodeTags@),
        }
    }
}

/// All identities present in the snapshot, one entry per entity, in table
/// order: nodes, revisions, phrasings, child-links, tags.
pub open spec fn all_ids(s: SubtreeModel) -> Seq<Seq<char>> {
    s.nodes.map_values(|n: NodeModel| n.id)
        + s.nodeRevisions.map_values(|r: RevisionModel| r.id)
        + s.nodePhrasings.map_values(|p: PhrasingModel| p.id)
        + s.nodeChildLinks.map_values(|l: LinkModel| l.id)
        + s.nodeTags.map_values(|t: TagModel| t.id)
}

/// Pairwise distinctness of a sequence of identities.
pub open spec fn distinct_seqs(s: Seq<Seq<char>>) -> bool {
    forall|i: int, j: int| 0 <= i < j < s.len() ==> s[i] != s[j]
}

/// Well-formedness of a snapshot: identities are globally unique, so every
/// entity's identity is distinct from every other entity's, across all five
/// tables.
pub open spec fn subtree_wf(s: SubtreeModel) -> bool {
    distinct_seqs(all_ids(s))
}

/// Appends one identity to the list being collected.
pub(crate) fn push_id(out: &mut Vec<String>, id: &String)
    ensures
        final(out).deep_view() == old(out).deep_view().push(id@),
{
    out.push(id.clone());
    proof {
        assert(out.deep_view() =~= old(out).deep_view().push(id@));
    }
}

/// Copies a list of identities unchanged.
pub(crate) fn copy_ids(v: &Vec<String>) -> (r: Vec<String>)
    ensures
        r.deep_view() == v.deep_view(),
{
    let mut out: Vec<String> = Vec::new();
    let mut i: usize = 0;
    proof {
        assert(out.deep_view() =~= v.deep_view().take(0));
    }
    while i < v.len()
        invariant
            i <= v@.len(),
            out.deep_view() == v.deep_view().take(i as int),
        decreases v@.len() - i,
    {
        push_id(&mut out, &v[i]);
        proof {
            assert(out.deep_view() =~= v.deep_view().take(i + 1));
        }
        i = i + 1;
    }
    proof {
        assert(v.deep_view().take(v@.len() as int) =~= v.deep_view());
    }
    out
}

/// Whether the list holds the identity.
pub(crate) fn contains_id(v: &Vec<String>, x: &String) -> (b: bool)
    ensures
        b == v.deep_view().contains(x@),
{
    let mut i: usize = 0;
    while i < v.len()
        invariant
            i <= v@.len(),
            forall|j: int| 0 <= j < i ==> v.deep_view()[j] != x@,
        decreases v@.len() - i,
    {
        if v[i] == *x {
            proof {
                assert(v.deep_view()[i as int] == x@);
            }
            return true;
        }
        i = i + 1;
    }
    proof {
        assert forall|j: int| 0 <= j < v.deep_view().len() implies v.deep_view()[j] != x@ by {}
    }
    false
}

impl Subtree {
    /// The identities of all entities in the snapshot, in table order, used
    /// as the domain of the identity remap.
    pub fn get_all_ids(&self) -> (r: Vec<String>)
        ensures
            r.deep_view() == all_ids(self@),
    {
        let ghost nid = self@.nodes.map_values(|n: NodeModel| n.id);
        let ghost rid = self@.nodeRevisions.map_values(|r: RevisionModel| r.id);
        let ghost pid = self@.nodePhrasings.map_values(|p: PhrasingModel| p.id);
        let ghost lid = self@.nodeChildLinks.map_values(|l: LinkModel| l.id);
        let ghost tid = self@.nodeTags.map_values(|t: TagModel| t.id);
        let mut out: Vec<String> = Vec::new();
        let mut i: usize = 0;
        proof {
            assert(out.deep_view() =~= nid.take(0));
        }
        while i < self.nodes.len()
            invariant
                i <= self.nodes.len(),
                nid == self@.nodes.map_values(|n: NodeModel| n.id),
                out.deep_view() == nid.take(i as int),
            decreases self.nodes.len() - i,
        {
            push_id(&mut out, &self.nodes[i].id);
            proof {
                assert(out.deep_view() =~= nid.take(i + 1));
            }
            i = i + 1;
        }
        proof {
            assert(nid.take(nid.len() as int) =~= nid);
        }
        let mut i: usize = 0;
        proof {
            assert(out.deep_view() =~= nid + rid.take(0));
        }
        while i < self.nodeRevisions.len()
            invariant
                i <= self.nodeRevisions.len(),
                nid == self@.nodes.map_values(|n: NodeModel| n.id),
                rid == self@.nodeRevisions.map_values(|r: RevisionModel| r.id),
                out.deep_view() == nid + rid.take(i as int),
            decreases self.nodeRevisions.len() - i,
        {
            push_id(&mut out, &self.nodeRevisions[i].id);
            proof {
                assert(out.deep_view() =~= nid + rid.take(i + 1));
            }
            i = i + 1;
        }
        proof {
            assert(rid.take(rid.len() as int) =~= rid);
        }
        let mut i: usize = 0;
        proof {
            assert(out.deep_view() =~= nid + rid + pid.take(0));
        }
        while i < self.nodePhrasings.len()
            invariant
                i <= self.nodePhrasings.len(),
                nid == self@.nodes.map_values(|n: NodeModel| n.id),
                rid == self@.nodeRevisions.map_values(|r: RevisionModel| r.id),
                pid == self@.nodePhrasings.map_values(|p: PhrasingModel| p.id),
                out.deep_view() == nid + rid + pid.take(i as int),
            decreases self.nodePhrasings.len() - i,
        {
            push_id(&mut out, &self.nodePhrasings[i].id);
            proof {
                assert(out.deep_view() =~= nid + rid + pid.take(i + 1));
            }
            i = i + 1;
        }
        proof {
            assert(pid.take(pid.len() as int) =~= pid);
        }
        let mut i: usize = 0;
        proof {
            assert(out.deep_view() =~= nid + rid + pid + lid.take(0));
        }
        while i < self.nodeChildLinks.len()
            invariant
                i <= self.nodeChildLinks.len(),
                nid == self@.nodes.map_values(|n: NodeModel| n.id),
                rid == self@.nodeRevisions.map_values(|r: RevisionModel| r.id),
                pid == self@.nodePhrasings.map_values(|p: PhrasingModel| p.id),
                lid == self@.nodeChildLinks.map_values(|l: LinkModel| l.id),
                out.deep_view() == nid + rid + pid + lid.take(i as int),
            decreases self.nodeChildLinks.len() - i,
        {
            push_id(&mut out, &self.nodeChildLinks[i].id);
            proof {
                assert(out.deep_view() =~= nid + rid + pid + lid.take(i + 1));
            }
            i = i + 1;
        }
        proof {
            assert(lid.take(lid.len() as int) =~= lid);
        }
        let mut i: usize = 0;
        proof {
            assert(out.deep_view() =~= nid + rid + pid + lid + tid.take(0));
        }
        while i < self.nodeTags.len()
            invariant
                i <= self.nodeTags.len(),
                nid == self@.nodes.map_values(|n: NodeModel| n.id),
                rid == self@.nodeRevisions.map_values(|r: RevisionModel| r.id),
                pid == self@.nodePhrasings.map_values(|p: PhrasingModel| p.id),
                lid == self@.nodeChildLinks.map_values(|l: LinkModel| l.id),
                tid == self@.nodeTags.map_values(|t: TagModel| t.id),
                out.deep_view() == nid + rid + pid + lid + tid.take(i as int),
            decreases self.nodeTags.len() - i,
        {
            push_id(&mut out, &self.nodeTags[i].id);
            proof {
                assert(out.deep_view() =~= nid + rid + pid + lid + tid.take(i + 1));
            }
            i = i + 1;
        }
        proof {
            assert(tid.take(tid.len() as int) =~= tid);
            assert(out.deep_view() =~= all_ids(self@));
        }
        out
    }
}

} // verus!
