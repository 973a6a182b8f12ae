//! The subtree fetcher: given a snapshot of the store's five tables, a root
//! identity and an optional maximum depth, collects the nodes reachable from
//! the root over child-links within that depth, together with the revisions,
//! phrasings, child-links and tags attached to them.
use vstd::prelude::*;

use crate::entities::{
    CloneError, MapNode, MapNodeRevision, MapNodePhrasing, NodeChildLink, MapNodeTag,
    TagLabels, TagCloneHistory, Subtree, NodeModel, RevisionModel, PhrasingModel,
    LinkModel, TagModel, SubtreeModel, nodes_view, revisions_view, phrasings_view,
    links_view, tags_view, push_id, copy_ids, contains_id,
};

verus! {

/// The relevant contents of the store, one vector per table.
pub struct StoreSnapshot {
    pub nodes: Vec<MapNode>,
    pub nodeRevisions: Vec<MapNodeRevision>,
    pub nodePhrasings: Vec<MapNodePhrasing>,
    pub nodeChildLinks: Vec<NodeChildLink>,
    pub nodeTags: Vec<MapNodeTag>,
}

impl View for StoreSnapshot {
    type V = SubtreeModel;

    open spec fn view(&self) -> SubtreeModel {
        SubtreeModel {
            nodes: nodes_view(self.nodes@),
            nodeRevisions: revisions_view(self.nodeRevisions@),
            nodePhrasings: phrasings_view(self.nodePhrasings@),
            nodeChildLinks: links_view(self.nodeChildLinks@),
            nodeTags: tags_view(self.nodeTags@),
        }
    }
}

/// The set of identities a list holds.
pub open spec fn id_set(v: Seq<Seq<char>>) -> Set<Seq<char>> {
    Set::new(|x: Seq<char>| v.contains(x))
}

/// One traversal round: the nodes already reached, plus every child of a
/// reached parent.
pub open spec fn step_set(links: Seq<LinkModel>, s: Set<Seq<char>>) -> Set<Seq<char>> {
    s.union(Set::new(|c: Seq<char>| exists|i: int|
        0 <= i < links.len() && s.contains((#[trigger] links[i]).parent) && links[i].child == c))
}

/// The node identities reachable from `root` over `links` in at most `d`
/// steps.
pub open spec fn reachable_within(links: Seq<LinkModel>, root: Seq<char>, d: nat) -> Set<Seq<char>>
    decreases d,
{
    if d == 0 {
        set![root]
    } else {
        step_set(links, reachable_within(links, root, (d - 1) as nat))
    }
}

/// The traversal depth: the requested bound, or — for an unbounded fetch —
/// one round per link, which reaches the fixpoint of reachability
/// ([`lemma_reachable_saturates`]).
pub open spec fn depth_of(maxDepth: Option<usize>, nlinks: nat) -> nat {
    match maxDepth {
        Some(d) => d as nat,
        None => nlinks,
    }
}

/// Every identity a traversal could ever reach: the root and the links'
/// children.
pub open spec fn candidate_ids(links: Seq<LinkModel>, root: Seq<char>) -> Set<Seq<char>> {
    links.map_values(|l: LinkModel| l.child).to_set().insert(root)
}

/// Whatever the depth, the reached set stays within the candidates, and so
/// holds at most one identity per link, plus the root.
proof fn lemma_reachable_in_candidates(links: Seq<LinkModel>, root: Seq<char>, d: nat)
    ensures
        reachable_within(links, root, d).subset_of(candidate_ids(links, root)),
        reachable_within(links, root, d).finite(),
        reachable_within(links, root, d).len() <= links.len() + 1,
    decreases d,
{
    broadcast use vstd::seq_lib::seq_to_set_is_finite;

    let cand = candidate_ids(links, root);
    let children = links.map_values(|l: LinkModel| l.child);
    children.lemma_cardinality_of_set();
    assert(cand.len() <= links.len() + 1);
    if d == 0 {
        assert forall|x: Seq<char>| reachable_within(links, root, 0).contains(x)
            implies cand.contains(x) by {
            assert(x == root);
        }
    } else {
        lemma_reachable_in_candidates(links, root, (d - 1) as nat);
        let prev = reachable_within(links, root, (d - 1) as nat);
        assert forall|x: Seq<char>| reachable_within(links, root, d).contains(x)
            implies cand.contains(x) by {
            if !prev.contains(x) {
                let i = choose|i: int| 0 <= i < links.len() && prev.contains((#[trigger] links[i]).parent) && links[i].child == x;
                assert(children[i] == x);
                assert(children.contains(x));
                assert(children.to_set().contains(x));
            }
        }
    }
    vstd::set_lib::lemma_len_subset(reachable_within(links, root, d), cand);
}

/// One more round never loses a reached identity.
proof fn lemma_reachable_mono(links: Seq<LinkModel>, root: Seq<char>, d: nat)
    ensures
        reachable_within(links, root, d).subset_of(reachable_within(links, root, d + 1)),
{
    assert(reachable_within(links, root, d + 1) == step_set(links, reachable_within(links, root, d)));
}

/// Once a round adds nothing, no later round does.
proof fn lemma_reachable_stable(links: Seq<LinkModel>, root: Seq<char>, d: nat, e: nat)
    requires
        reachable_within(links, root, d) == reachable_within(links, root, d + 1),
        d <= e,
    ensures
        reachable_within(links, root, e) == reachable_within(links, root, d),
    decreases e - d,
{
    if e > d {
        lemma_reachable_stable(links, root, d, (e - 1) as nat);
        assert(reachable_within(links, root, e) == step_set(links, reachable_within(links, root, (e - 1) as nat)));
        assert(reachable_within(links, root, d + 1) == step_set(links, reachable_within(links, root, d)));
    }
}

/// A round that changes the reached set enlarges it by at least one.
proof fn lemma_reachable_growth(links: Seq<LinkModel>, root: Seq<char>, d: nat)
    ensures
        reachable_within(links, root, d + 1) == reachable_within(links, root, d)
            || reachable_within(links, root, d + 1).len() >= reachable_within(links, root, d).len() + 1,
{
    let cur = reachable_within(links, root, d);
    let nxt = reachable_within(links, root, d + 1);
    lemma_reachable_mono(links, root, d);
    lemma_reachable_in_candidates(links, root, d + 1);
    if cur != nxt {
        assert(exists|x: Seq<char>| nxt.contains(x) != cur.contains(x)) by {
            if forall|x: Seq<char>| #[trigger] nxt.contains(x) == cur.contains(x) {
                assert(cur =~= nxt);
            }
        }
        let x = choose|x: Seq<char>| nxt.contains(x) != cur.contains(x);
        assert(nxt.contains(x) && !cur.contains(x));
        cur.lemma_subset_not_in_lt(nxt, x);
    }
}

/// After as many rounds as there are links, the reached set can no longer
/// grow: the unbounded traversal has found everything reachable.
pub proof fn lemma_reachable_saturates(links: Seq<LinkModel>, root: Seq<char>, e: nat)
    requires
        e >= links.len(),
    ensures
        reachable_within(links, root, e) == reachable_within(links, root, links.len() as nat),
    decreases e,
{
    let n = links.len() as nat;
    lemma_reachable_progress(links, root, n);
    lemma_reachable_growth(links, root, n);
    lemma_reachable_in_candidates(links, root, n + 1);
    assert(reachable_within(links, root, n) == reachable_within(links, root, n + 1));
    lemma_reachable_stable(links, root, n, e);
}

/// Every round either reaches a fixpoint or has grown the set once per
/// round so far.
proof fn lemma_reachable_progress(links: Seq<LinkModel>, root: Seq<char>, d: nat)
    ensures
        reachable_within(links, root, d) == reachable_within(links, root, d + 1)
            || reachable_within(links, root, d).len() >= d + 1,
    decreases d,
{
    if d == 0 {
        assert(reachable_within(links, root, 0) =~= Set::empty().insert(root));
        assert(reachable_within(links, root, 0).len() == 1);
    } else {
        let dp = (d - 1) as nat;
        lemma_reachable_progress(links, root, dp);
        if reachable_within(links, root, dp) == reachable_within(links, root, dp + 1) {
            lemma_reachable_stable(links, root, dp, d + 1);
            lemma_reachable_stable(links, root, dp, d);
        } else {
            lemma_reachable_growth(links, root, dp);
        }
    }
}

pub open spec fn node_id_in_store(s: SubtreeModel, x: Seq<char>) -> bool {
    exists|i: int| 0 <= i < s.nodes.len() && (#[trigger] s.nodes[i]).id == x
}

/// Whether some node the tag is attached to lies in the reached set.
pub open spec fn tag_touches(s: Set<Seq<char>>, t: TagModel) -> bool {
    exists|j: int| 0 <= j < t.nodes.len() && s.contains(#[trigger] t.nodes[j])
}

/// The store's nodes whose identity lies in the reached set, in store order.
pub open spec fn fetched_nodes(s: Seq<NodeModel>, reach: Set<Seq<char>>) -> Seq<NodeModel>
    decreases s.len(),
{
    if s.len() == 0 {
        Seq::empty()
    } else {
        let rest = fetched_nodes(s.drop_last(), reach);
        if reach.contains(s.last().id) {
            rest.push(s.last())
        } else {
            rest
        }
    }
}

/// The store's revisions attached to a reached node, in store order.
pub open spec fn fetched_revisions(s: Seq<RevisionModel>, reach: Set<Seq<char>>) -> Seq<RevisionModel>
    decreases s.len(),
{
    if s.len() == 0 {
        Seq::empty()
    } else {
        let rest = fetched_revisions(s.drop_last(), reach);
        if reach.contains(s.last().node) {
            rest.push(s.last())
        } else {
            rest
        }
    }
}

/// The store's phrasings attached to a reached node, in store order.
pub open spec fn fetched_phrasings(s: Seq<PhrasingModel>, reach: Set<Seq<char>>) -> Seq<PhrasingModel>
    decreases s.len(),
{
    if s.len() == 0 {
        Seq::empty()
    } else {
        let rest = fetched_phrasings(s.drop_last(), reach);
        if reach.contains(s.last().node) {
            rest.push(s.last())
        } else {
            rest
        }
    }
}

/// The store's child-links with both endpoints reached, in store order.
pub open spec fn fetched_links(s: Seq<LinkModel>, reach: Set<Seq<char>>) -> Seq<LinkModel>
    decreases s.len(),
{
    if s.len() == 0 {
        Seq::empty()
    } else {
        let rest = fetched_links(s.drop_last(), reach);
        if reach.contains(s.last().parent) && reach.contains(s.last().child) {
            rest.push(s.last())
        } else {
            rest
        }
    }
}

/// The store's tags touching a reached node, in store order.
pub open spec fn fetched_tags(s: Seq<TagModel>, reach: Set<Seq<char>>) -> Seq<TagModel>
    decreases s.len(),
{
    if s.len() == 0 {
        Seq::empty()
    } else {
        let rest = fetched_tags(s.drop_last(), reach);
        if tag_touches(reach, s.last()) {
            rest.push(s.last())
        } else {
            rest
        }
    }
}

/// The full contract of [`fetch_subtree`]: on success the snapshot holds
/// exactly the store rows attached to a reached node, in store order, and
/// the root resolves to an existing node; `NotFound` exactly when it does
/// not.
pub open spec fn fetch_post(r: Result<Subtree, CloneError>, s: SubtreeModel, root: Seq<char>, maxDepth: Option<usize>) -> bool {
    let reach = reachable_within(s.nodeChildLinks, root, depth_of(maxDepth, s.nodeChildLinks.len() as nat));
    match r {
        Ok(sub) => node_id_in_store(s, root)
            && sub@.nodes == fetched_nodes(s.nodes, reach)
            && sub@.nodeRevisions == fetched_revisions(s.nodeRevisions, reach)
            && sub@.nodePhrasings == fetched_phrasings(s.nodePhrasings, reach)
            && sub@.nodeChildLinks == fetched_links(s.nodeChildLinks, reach)
            && sub@.nodeTags == fetched_tags(s.nodeTags, reach),
        Err(e) => e == CloneError::NotFound && !node_id_in_store(s, root),
    }
}

/// Appending an identity to a list inserts it into the list's set.
proof fn lemma_id_set_push(v: Seq<Seq<char>>, x: Seq<char>)
    ensures
        id_set(v.push(x)) =~= id_set(v).insert(x),
{
    assert forall|y: Seq<char>| v.push(x).contains(y) implies (v.contains(y) || y == x) by {
        let i = choose|i: int| 0 <= i < v.push(x).len() && v.push(x)[i] == y;
        if i < v.len() {
            assert(v[i] == y);
        }
    }
    assert forall|y: Seq<char>| v.contains(y) implies v.push(x).contains(y) by {
        let i = choose|i: int| 0 <= i < v.len() && v[i] == y;
        assert(v.push(x)[i] == y);
    }
    assert(v.push(x)[v.len() as int] == x);
    assert(v.push(x).contains(x));
}

/// Extending the traversal by one link extends the round's set by that
/// link's child, when its parent is already reached.
proof fn lemma_step_extend(links: Seq<LinkModel>, j: int, s: Set<Seq<char>>)
    requires
        0 <= j < links.len(),
    ensures
        s.contains(links[j].parent) ==> step_set(links.take(j + 1), s)
            =~= step_set(links.take(j), s).insert(links[j].child),
        !s.contains(links[j].parent) ==> step_set(links.take(j + 1), s)
            =~= step_set(links.take(j), s),
{
    let pre = links.take(j);
    let nxt = links.take(j + 1);
    assert forall|c: Seq<char>| step_set(nxt, s).contains(c)
        implies (step_set(pre, s).contains(c)
            || (s.contains(links[j].parent) && c == links[j].child)) by {
        if !s.contains(c) {
            let i = choose|i: int| 0 <= i < nxt.len() && s.contains(nxt[i].parent) && nxt[i].child == c;
            if i < j {
                assert(pre[i] == nxt[i]);
                assert(s.contains(pre[i].parent) && pre[i].child == c);
            } else {
                assert(nxt[j] == links[j]);
            }
        }
    }
    assert forall|c: Seq<char>| step_set(pre, s).contains(c) implies step_set(nxt, s).contains(c) by {
        if !s.contains(c) {
            let i = choose|i: int| 0 <= i < pre.len() && s.contains(pre[i].parent) && pre[i].child == c;
            assert(nxt[i] == pre[i]);
            assert(s.contains(nxt[i].parent) && nxt[i].child == c);
        }
    }
    if s.contains(links[j].parent) {
        assert(nxt[j] == links[j]);
        assert(step_set(nxt, s).contains(links[j].child));
    }
}

/// Computes the reached node-identity set: `rounds` traversal rounds from
/// the root.
#[verifier::loop_isolation(false)]
fn reach_ids(links: &Vec<NodeChildLink>, rootNodeID: &String, rounds: usize) -> (r: Vec<String>)
    ensures
        id_set(r.deep_view()) == reachable_within(links_view(links@), rootNodeID@, rounds as nat),
{
    let ghost glinks = links_view(links@);
    let mut reached: Vec<String> = Vec::new();
    proof {
        assert(reached.deep_view() =~= Seq::<Seq<char>>::empty());
        assert forall|y: Seq<char>| !Seq::<Seq<char>>::empty().contains(y) by {}
        lemma_id_set_push(Seq::<Seq<char>>::empty(), rootNodeID@);
    }
    push_id(&mut reached, rootNodeID);
    proof {
        assert(id_set(reached.deep_view()) =~= reachable_within(glinks, rootNodeID@, 0));
    }
    let mut k: usize = 0;
    while k < rounds
        invariant
            k <= rounds,
            id_set(reached.deep_view()) == reachable_within(glinks, rootNodeID@, k as nat),
        decreases rounds - k,
    {
        let base = copy_ids(&reached);
        let ghost gbase = id_set(base.deep_view());
        let mut j: usize = 0;
        proof {
            assert(id_set(reached.deep_view()) =~= step_set(glinks.take(0), gbase));
        }
        while j < links.len()
            invariant
                j <= links@.len(),
                id_set(base.deep_view()) == gbase,
                id_set(reached.deep_view()) == step_set(glinks.take(j as int), gbase),
            decreases links@.len() - j,
        {
            proof {
                lemma_step_extend(glinks, j as int, gbase);
                assert(glinks[j as int] == links@[j as int]@);
            }
            if contains_id(&base, &links[j].parent) {
                let ghost prev = reached.deep_view();
                push_id(&mut reached, &links[j].child);
                proof {
                    lemma_id_set_push(prev, links@[j as int].child@);
                    assert(id_set(reached.deep_view()) =~= step_set(glinks.take(j + 1), gbase));
                }
            } else {
                proof {
                    assert(id_set(reached.deep_view()) =~= step_set(glinks.take(j + 1), gbase));
                }
            }
            j = j + 1;
        }
        proof {
            assert(glinks.take(glinks.len() as int) =~= glinks);
            assert(id_set(reached.deep_view()) == step_set(glinks, gbase));
            assert(reachable_within(glinks, rootNodeID@, (k + 1) as nat)
                == step_set(glinks, reachable_within(glinks, rootNodeID@, k as nat)));
        }
        k = k + 1;
    }
    reached
}

fn copy_node(n: &MapNode) -> (r: MapNode)
    ensures
        r@ == n@,
{
    MapNode { id: n.id.clone(), c_currentRevision: n.c_currentRevision.clone(), extras: n.extras.clone() }
}

fn copy_revision(rv: &MapNodeRevision) -> (r: MapNodeRevision)
    ensures
        r@ == rv@,
{
    MapNodeRevision { id: rv.id.clone(), node: rv.node.clone(), extras: rv.extras.clone() }
}

fn copy_phrasing(p: &MapNodePhrasing) -> (r: MapNodePhrasing)
    ensures
        r@ == p@,
{
    MapNodePhrasing { id: p.id.clone(), node: p.node.clone(), extras: p.extras.clone() }
}

fn copy_link(l: &NodeChildLink) -> (r: NodeChildLink)
    ensures
        r@ == l@,
{
    NodeChildLink { id: l.id.clone(), parent: l.parent.clone(), child: l.child.clone(), extras: l.extras.clone() }
}

fn copy_tag(t: &MapNodeTag) -> (r: MapNodeTag)
    ensures
        r@ == t@,
{
    let labels = match &t.labels {
        Some(l) => Some(TagLabels { nodeX: l.nodeX.clone() }),
        None => None,
    };
    let history = match &t.cloneHistory {
        Some(h) => Some(TagCloneHistory { cloneChain: copy_ids(&h.cloneChain) }),
        None => None,
    };
    MapNodeTag {
        id: t.id.clone(),
        nodes: copy_ids(&t.nodes),
        labels,
        cloneHistory: history,
        extras: t.extras.clone(),
    }
}

/// Whether some node the tag is attached to lies in the reached list.
fn tag_touches_reached(reached: &Vec<String>, t: &MapNodeTag) -> (b: bool)
    ensures
        b == tag_touches(id_set(reached.deep_view()), t@),
{
    let mut j: usize = 0;
    while j < t.nodes.len()
        invariant
            j <= t.nodes@.len(),
            forall|l: int| 0 <= l < j ==> !id_set(reached.deep_view()).contains(#[trigger] t@.nodes[l]),
        decreases t.nodes@.len() - j,
    {
        if contains_id(reached, &t.nodes[j]) {
            proof {
                assert(id_set(reached.deep_view()).contains(t@.nodes[j as int]));
            }
            return true;
        }
        j = j + 1;
    }
    false
}

/// Retrieves the depth-bounded subtree: the reached nodes, the revisions and
/// phrasings attached to them, the child-links internal to the reached set,
/// and the tags touching a reached node. Fails with `NotFound` when the root
/// identity does not resolve to an existing node.
#[verifier::loop_isolation(false)]
pub fn fetch_subtree(store: &StoreSnapshot, rootNodeID: &String, maxDepth: Option<usize>) -> (r: Result<Subtree, CloneError>)
    ensures
        fetch_post(r, store@, rootNodeID@, maxDepth),
{
    let ghost smodel = store@;
    // The root must resolve to an existing node.
    let mut i: usize = 0;
    let mut root_found = false;
    while i < store.nodes.len()
        invariant
            i <= store.nodes@.len(),
            root_found ==> node_id_in_store(smodel, rootNodeID@),
            !root_found ==> forall|j: int| 0 <= j < i ==> (#[trigger] smodel.nodes[j]).id != rootNodeID@,
        decreases store.nodes@.len() - i,
    {
        if !root_found && store.nodes[i].id == *rootNodeID {
            proof {
                assert(smodel.nodes[i as int].id == rootNodeID@);
            }
            root_found = true;
        }
        i = i + 1;
    }
    if !root_found {
        return Err(CloneError::NotFound);
    }

    let rounds = match maxDepth {
        Some(d) => d,
        None => store.nodeChildLinks.len(),
    };
    let reached = reach_ids(&store.nodeChildLinks, rootNodeID, rounds);
    let ghost reach = reachable_within(smodel.nodeChildLinks, rootNodeID@,
        depth_of(maxDepth, smodel.nodeChildLinks.len() as nat));
    proof {
        assert(id_set(reached.deep_view()) == reach);
    }

    let mut nodes: Vec<MapNode> = Vec::new();
    let mut i: usize = 0;
    proof {
        assert(nodes_view(nodes@) =~= fetched_nodes(smodel.nodes.take(0), reach));
    }
    while i < store.nodes.len()
        invariant
            i <= store.nodes@.len(),
            nodes_view(nodes@) == fetched_nodes(smodel.nodes.take(i as int), reach),
        decreases store.nodes@.len() - i,
    {
        proof {
            assert(smodel.nodes.take(i + 1).drop_last() =~= smodel.nodes.take(i as int));
            assert(smodel.nodes.take(i + 1).last() == smodel.nodes[i as int]);
            assert(smodel.nodes[i as int] == store.nodes@[i as int]@);
        }
        if contains_id(&reached, &store.nodes[i].id) {
            nodes.push(copy_node(&store.nodes[i]));
            proof {
                assert(nodes_view(nodes@) =~= fetched_nodes(smodel.nodes.take(i + 1), reach));
            }
        } else {
            proof {
                assert(nodes_view(nodes@) =~= fetched_nodes(smodel.nodes.take(i + 1), reach));
            }
        }
        i = i + 1;
    }
    proof {
        assert(smodel.nodes.take(smodel.nodes.len() as int) =~= smodel.nodes);
    }

    let mut revisions: Vec<MapNodeRevision> = Vec::new();
    let mut i: usize = 0;
    proof {
        assert(revisions_view(revisions@) =~= fetched_revisions(smodel.nodeRevisions.take(0), reach));
    }
    while i < store.nodeRevisions.len()
        invariant
            i <= store.nodeRevisions@.len(),
            revisions_view(revisions@) == fetched_revisions(smodel.nodeRevisions.take(i as int), reach),
        decreases store.nodeRevisions@.len() - i,
    {
        proof {
            assert(smodel.nodeRevisions.take(i + 1).drop_last() =~= smodel.nodeRevisions.take(i as int));
            assert(smodel.nodeRevisions.take(i + 1).last() == smodel.nodeRevisions[i as int]);
            assert(smodel.nodeRevisions[i as int] == store.nodeRevisions@[i as int]@);
        }
        if contains_id(&reached, &store.nodeRevisions[i].node) {
            revisions.push(copy_revision(&store.nodeRevisions[i]));
            proof {
                assert(revisions_view(revisions@) =~= fetched_revisions(smodel.nodeRevisions.take(i + 1), reach));
            }
        } else {
            proof {
                assert(revisions_view(revisions@) =~= fetched_revisions(smodel.nodeRevisions.take(i + 1), reach));
            }
        }
        i = i + 1;
    }
    proof {
        assert(smodel.nodeRevisions.take(smodel.nodeRevisions.len() as int) =~= smodel.nodeRevisions);
    }

    let mut phrasings: Vec<MapNodePhrasing> = Vec::new();
    let mut i: usize = 0;
    proof {
        assert(phrasings_view(phrasings@) =~= fetched_phrasings(smodel.nodePhrasings.take(0), reach));
    }
    while i < store.nodePhrasings.len()
        invariant
            i <= store.nodePhrasings@.len(),
            phrasings_view(phrasings@) == fetched_phrasings(smodel.nodePhrasings.take(i as int), reach),
        decreases store.nodePhrasings@.len() - i,
    {
        proof {
            assert(smodel.nodePhrasings.take(i + 1).drop_last() =~= smodel.nodePhrasings.take(i as int));
            assert(smodel.nodePhrasings.take(i + 1).last() == smodel.nodePhrasings[i as int]);
            assert(smodel.nodePhrasings[i as int] == store.nodePhrasings@[i as int]@);
        }
        if contains_id(&reached, &store.nodePhrasings[i].node) {
            phrasings.push(copy_phrasing(&store.nodePhrasings[i]));
            proof {
                assert(phrasings_view(phrasings@) =~= fetched_phrasings(smodel.nodePhrasings.take(i + 1), reach));
            }
        } else {
            proof {
                assert(phrasings_view(phrasings@) =~= fetched_phrasings(smodel.nodePhrasings.take(i + 1), reach));
            }
        }
        i = i + 1;
    }
    proof {
        assert(smodel.nodePhrasings.take(smodel.nodePhrasings.len() as int) =~= smodel.nodePhrasings);
    }

    let mut links: Vec<NodeChildLink> = Vec::new();
    let mut i: usize = 0;
    proof {
        assert(links_view(links@) =~= fetched_links(smodel.nodeChildLinks.take(0), reach));
    }
    while i < store.nodeChildLinks.len()
        invariant
            i <= store.nodeChildLinks@.len(),
            links_view(links@) == fetched_links(smodel.nodeChildLinks.take(i as int), reach),
        decreases store.nodeChildLinks@.len() - i,
    {
        proof {
            assert(smodel.nodeChildLinks.take(i + 1).drop_last() =~= smodel.nodeChildLinks.take(i as int));
            assert(smodel.nodeChildLinks.take(i + 1).last() == smodel.nodeChildLinks[i as int]);
            assert(smodel.nodeChildLinks[i as int] == store.nodeChildLinks@[i as int]@);
        }
        let keep = contains_id(&reached, &store.nodeChildLinks[i].parent)
            && contains_id(&reached, &store.nodeChildLinks[i].child);
        if keep {
            links.push(copy_link(&store.nodeChildLinks[i]));
            proof {
                assert(links_view(links@) =~= fetched_links(smodel.nodeChildLinks.take(i + 1), reach));
            }
        } else {
            proof {
                assert(links_view(links@) =~= fetched_links(smodel.nodeChildLinks.take(i + 1), reach));
            }
        }
        i = i + 1;
    }
    proof {
        assert(smodel.nodeChildLinks.take(smodel.nodeChildLinks.len() as int) =~= smodel.nodeChildLinks);
    }

    let mut tags: Vec<MapNodeTag> = Vec::new();
    let mut i: usize = 0;
    proof {
        assert(tags_view(tags@) =~= fetched_tags(smodel.nodeTags.take(0), reach));
    }
    while i < store.nodeTags.len()
        invariant
            i <= store.nodeTags@.len(),
            tags_view(tags@) == fetched_tags(smodel.nodeTags.take(i as int), reach),
        decreases store.nodeTags@.len() - i,
    {
        proof {
            assert(smodel.nodeTags.take(i + 1).drop_last() =~= smodel.nodeTags.take(i as int));
            assert(smodel.nodeTags.take(i + 1).last() == smodel.nodeTags[i as int]);
            assert(smodel.nodeTags[i as int] == store.nodeTags@[i as int]@);
        }
        if tag_touches_reached(&reached, &store.nodeTags[i]) {
            tags.push(copy_tag(&store.nodeTags[i]));
            proof {
                assert(tags_view(tags@) =~= fetched_tags(smodel.nodeTags.take(i + 1), reach));
            }
        } else {
            proof {
                assert(tags_view(tags@) =~= fetched_tags(smodel.nodeTags.take(i + 1), reach));
            }
        }
        i = i + 1;
    }
    proof {
        assert(smodel.nodeTags.take(smodel.nodeTags.len() as int) =~= smodel.nodeTags);
    }

    Ok(Subtree {
        nodes,
        nodeRevisions: revisions,
        nodePhrasings: phrasings,
        nodeChildLinks: links,
        nodeTags: tags,
    })
}

} // verus!
