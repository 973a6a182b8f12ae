//! The library-wide laws of the clone operation, each proved from the
//! contracts in [`crate::cloneop`] and [`crate::fetch`]: identity freshness,
//! structural isomorphism, reference closure, attachment correctness,
//! non-idempotence of repeated clones, and depth bounding.
use vstd::prelude::*;

use crate::entities::{
    NodeModel, RevisionModel, PhrasingModel, LinkModel, TagModel, SubtreeModel,
    all_ids, distinct_seqs, nodes_view, revisions_view, phrasings_view, links_view,
    tags_view,
};
use crate::idmap::{pairs_map, seqs_disjoint, lemma_pairs_map_props, lemma_remap_props};
use crate::cloneop::{
    ClonePlan, clone_plan_post, fresh_supply_ok, tag_clone_spec, tags_clone_spec,
    remapped_node, remapped_revision, remapped_phrasing, remapped_link, link_matches,
};
use crate::fetch::{reachable_within, step_set};

verus! {

/// The identity remap a clone operation uses: the snapshot's identities,
/// in table order, sent to the fresh identities, in order.
pub open spec fn subtree_remap(s: SubtreeModel, fresh: Seq<Seq<char>>) -> Map<Seq<char>, Seq<char>> {
    pairs_map(all_ids(s), fresh)
}

/// Every identity the plan writes under, one entry per written row, in write
/// order: the attachment link first, then each table.
pub open spec fn plan_all_ids(p: ClonePlan) -> Seq<Seq<char>> {
    seq![p.rootLink@.id]
        + nodes_view(p.nodes@).map_values(|n: NodeModel| n.id)
        + revisions_view(p.nodeRevisions@).map_values(|r: RevisionModel| r.id)
        + phrasings_view(p.nodePhrasings@).map_values(|ph: PhrasingModel| ph.id)
        + links_view(p.nodeChildLinks@).map_values(|l: LinkModel| l.id)
        + tags_view(p.nodeTags@).map_values(|t: TagModel| t.id)
}

/// The original identities of the tags that the clone keeps, in order.
pub open spec fn kept_tag_old_ids(m: Map<Seq<char>, Seq<char>>, root: Seq<char>, ts: Seq<TagModel>) -> Seq<Seq<char>>
    decreases ts.len(),
{
    if ts.len() == 0 {
        Seq::empty()
    } else {
        let rest = kept_tag_old_ids(m, root, ts.drop_last());
        if tag_clone_spec(m, root, ts.last()) is Some {
            rest.push(ts.last().id)
        } else {
            rest
        }
    }
}

/// The kept tags' clones carry exactly the remapped identities of the kept
/// originals, in order; the kept originals are drawn from the tag list, and
/// stay distinct when the tag identities are.
proof fn lemma_kept_tags(m: Map<Seq<char>, Seq<char>>, root: Seq<char>, ts: Seq<TagModel>)
    ensures
        tags_clone_spec(m, root, ts).len() == kept_tag_old_ids(m, root, ts).len(),
        forall|k: int| 0 <= k < tags_clone_spec(m, root, ts).len()
            ==> (#[trigger] tags_clone_spec(m, root, ts)[k]).id == m[kept_tag_old_ids(m, root, ts)[k]],
        forall|k: int| #![trigger kept_tag_old_ids(m, root, ts)[k]] 0 <= k < kept_tag_old_ids(m, root, ts).len()
            ==> exists|j: int| 0 <= j < ts.len() && (#[trigger] ts[j]).id == kept_tag_old_ids(m, root, ts)[k],
        distinct_seqs(ts.map_values(|t: TagModel| t.id)) ==> distinct_seqs(kept_tag_old_ids(m, root, ts)),
    decreases ts.len(),
{
    if ts.len() == 0 {
    } else {
        let td = ts.drop_last();
        lemma_kept_tags(m, root, td);
        let kept = kept_tag_old_ids(m, root, ts);
        let keptd = kept_tag_old_ids(m, root, td);
        let out = tags_clone_spec(m, root, ts);
        let outd = tags_clone_spec(m, root, td);
        assert forall|k: int| #![trigger kept[k]] 0 <= k < kept.len()
            implies exists|j: int| 0 <= j < ts.len() && (#[trigger] ts[j]).id == kept[k] by {
            if tag_clone_spec(m, root, ts.last()) is Some && k == kept.len() - 1 {
                assert(ts[ts.len() - 1].id == kept[k]);
            } else {
                let j = choose|j: int| 0 <= j < td.len() && (#[trigger] td[j]).id == keptd[k];
                assert(ts[j].id == kept[k]);
            }
        }
        match tag_clone_spec(m, root, ts.last()) {
            Some(c) => {
                assert(out == outd.push(c));
                assert(c.id == m[ts.last().id]);
            },
            None => {
                assert(out == outd);
            },
        }
        if distinct_seqs(ts.map_values(|t: TagModel| t.id)) {
            let tids = ts.map_values(|t: TagModel| t.id);
            let tdids = td.map_values(|t: TagModel| t.id);
            assert forall|i: int, j: int| 0 <= i < j < tdids.len() implies tdids[i] != tdids[j] by {
                assert(tdids[i] == tids[i] && tdids[j] == tids[j]);
            }
            if tag_clone_spec(m, root, ts.last()) is Some {
                assert forall|k: int| 0 <= k < keptd.len() implies keptd[k] != ts.last().id by {
                    let j = choose|j: int| 0 <= j < td.len() && (#[trigger] td[j]).id == keptd[k];
                    assert(tids[j] == keptd[k] && tids[ts.len() - 1] == ts.last().id);
                }
                assert forall|i: int, j: int| 0 <= i < j < kept.len() implies kept[i] != kept[j] by {
                    if j < kept.len() - 1 {
                        assert(kept[i] == keptd[i] && kept[j] == keptd[j]);
                    } else {
                        assert(kept[i] == keptd[i] && kept[j] == ts.last().id);
                    }
                }
            }
        }
    }
}

/// The workhorse behind the freshness laws: the plan writes under the fresh
/// attachment-link identity followed by remapped snapshot identities, all
/// pairwise distinct and disjoint from the snapshot's own.
proof fn lemma_plan_id_sources(s: SubtreeModel, parent: Seq<char>, root: Seq<char>, cand: Seq<LinkModel>, fresh: Seq<Seq<char>>, link_id: Seq<char>, p: ClonePlan)
    requires
        distinct_seqs(all_ids(s)),
        fresh_supply_ok(all_ids(s), fresh, link_id, parent),
        clone_plan_post(Ok(p), s, parent, root, cand, fresh, link_id),
    ensures
        plan_all_ids(p).len() >= 1,
        plan_all_ids(p)[0] == link_id,
        forall|k: int| 1 <= k < plan_all_ids(p).len() ==> fresh.contains(#[trigger] plan_all_ids(p)[k]),
        distinct_seqs(plan_all_ids(p)),
        seqs_disjoint(all_ids(s), plan_all_ids(p)),
{
    let m = subtree_remap(s, fresh);
    let a = all_ids(s);
    lemma_pairs_map_props(a, fresh);
    lemma_remap_props(a, fresh);
    lemma_kept_tags(m, root, s.nodeTags);
    let kept = kept_tag_old_ids(m, root, s.nodeTags);
    let n1 = s.nodes.len() as int;
    let n2 = s.nodeRevisions.len() as int;
    let n3 = s.nodePhrasings.len() as int;
    let n4 = s.nodeChildLinks.len() as int;
    let npre = n1 + n2 + n3 + n4;
    let olds = s.nodes.map_values(|n: NodeModel| n.id)
        + s.nodeRevisions.map_values(|r: RevisionModel| r.id)
        + s.nodePhrasings.map_values(|ph: PhrasingModel| ph.id)
        + s.nodeChildLinks.map_values(|l: LinkModel| l.id)
        + kept;
    let pids = plan_all_ids(p);

    // The attachment link's identity.
    assert(p.rootLink@.id == link_id) by {
        let i = choose|i: int| 0 <= i < cand.len() && link_matches(#[trigger] cand[i], parent, root)
            && (forall|j: int| 0 <= j < i ==> !link_matches(#[trigger] cand[j], parent, root))
            && p.rootLink@ == (LinkModel { id: link_id, parent: parent, child: m[root], extras: cand[i].extras });
    }
    assert(pids[0] == link_id);

    // Lengths.
    assert(tags_view(p.nodeTags@).len() == kept.len());
    assert(pids.len() == 1 + olds.len());

    // Each later plan identity is the remap of a snapshot identity, and
    // every snapshot identity named in `olds` lies in the remap's domain.
    assert forall|k: int| 0 <= k < olds.len()
        implies a.contains(#[trigger] olds[k]) && m.dom().contains(olds[k]) && pids[k + 1] == m[olds[k]] by {
        if k < n1 {
            assert(olds[k] == s.nodes[k].id);
            assert(a[k] == s.nodes[k].id);
            assert(a.contains(olds[k]));
            assert(nodes_view(p.nodes@)[k] == remapped_node(m, s.nodes[k]));
            assert(pids[k + 1] == nodes_view(p.nodes@).map_values(|n: NodeModel| n.id)[k]);
        } else if k < n1 + n2 {
            assert(olds[k] == s.nodeRevisions[k - n1].id);
            assert(a[k] == s.nodeRevisions[k - n1].id);
            assert(a.contains(olds[k]));
            assert(revisions_view(p.nodeRevisions@)[k - n1] == remapped_revision(m, s.nodeRevisions[k - n1]));
            assert(pids[k + 1] == revisions_view(p.nodeRevisions@).map_values(|r: RevisionModel| r.id)[k - n1]);
        } else if k < n1 + n2 + n3 {
            assert(olds[k] == s.nodePhrasings[k - n1 - n2].id);
            assert(a[k] == s.nodePhrasings[k - n1 - n2].id);
            assert(a.contains(olds[k]));
            assert(phrasings_view(p.nodePhrasings@)[k - n1 - n2] == remapped_phrasing(m, s.nodePhrasings[k - n1 - n2]));
            assert(pids[k + 1] == phrasings_view(p.nodePhrasings@).map_values(|ph: PhrasingModel| ph.id)[k - n1 - n2]);
        } else if k < npre {
            assert(olds[k] == s.nodeChildLinks[k - n1 - n2 - n3].id);
            assert(a[k] == s.nodeChildLinks[k - n1 - n2 - n3].id);
            assert(a.contains(olds[k]));
            assert(links_view(p.nodeChildLinks@)[k - n1 - n2 - n3] == remapped_link(m, s.nodeChildLinks[k - n1 - n2 - n3]));
            assert(pids[k + 1] == links_view(p.nodeChildLinks@).map_values(|l: LinkModel| l.id)[k - n1 - n2 - n3]);
        } else {
            assert(olds[k] == kept[k - npre]);
            let j = choose|j: int| 0 <= j < s.nodeTags.len() && (#[trigger] s.nodeTags[j]).id == kept[k - npre];
            assert(a[npre + j] == s.nodeTags[j].id);
            assert(a.contains(olds[k]));
            assert(tags_view(p.nodeTags@) == tags_clone_spec(m, root, s.nodeTags));
            assert(tags_view(p.nodeTags@)[k - npre].id == m[kept[k - npre]]);
            assert(pids[k + 1] == tags_view(p.nodeTags@).map_values(|t: TagModel| t.id)[k - npre]);
        }
    }

    // `olds` is pairwise distinct.
    let tids = s.nodeTags.map_values(|t: TagModel| t.id);
    assert forall|i: int, j: int| 0 <= i < j < tids.len() implies tids[i] != tids[j] by {
        assert(a[npre + i] == tids[i] && a[npre + j] == tids[j]);
    }
    assert(distinct_seqs(kept));
    assert forall|i: int, j: int| 0 <= i < j < olds.len() implies olds[i] != olds[j] by {
        if j < npre {
            assert(olds[i] == a[i] && olds[j] == a[j]);
        } else if i < npre {
            assert(olds[i] == a[i]);
            let jj = choose|jj: int| 0 <= jj < s.nodeTags.len() && (#[trigger] s.nodeTags[jj]).id == kept[j - npre];
            assert(olds[j] == a[npre + jj]);
            assert(i < npre + jj);
        } else {
            assert(olds[i] == kept[i - npre] && olds[j] == kept[j - npre]);
        }
    }

    // Assembly.
    assert forall|k: int| 1 <= k < pids.len() implies fresh.contains(#[trigger] pids[k]) by {
        assert(m.dom().contains(olds[k - 1]) && pids[k] == m[olds[k - 1]]);
        assert(fresh.contains(m[olds[k - 1]]));
    }
    assert forall|i: int, j: int| 0 <= i < j < pids.len() implies pids[i] != pids[j] by {
        if i == 0 {
            assert(fresh.contains(pids[j]));
            if pids[j] == link_id {
                assert(fresh.contains(link_id));
            }
        } else {
            assert(pids[i] == m[olds[i - 1]] && pids[j] == m[olds[j - 1]]);
            assert(olds[i - 1] != olds[j - 1]);
        }
    }
    assert forall|i: int, j: int| #![trigger a[i], pids[j]] 0 <= i < a.len() && 0 <= j < pids.len() implies a[i] != pids[j] by {
        if j == 0 {
            if a[i] == link_id {
                assert(a.contains(link_id));
            }
        } else {
            assert(pids[j] == m[olds[j - 1]] && m.dom().contains(olds[j - 1]));
            assert(!a.contains(m[olds[j - 1]]));
            if a[i] == pids[j] {
                assert(a.contains(pids[j]));
            }
        }
    }
}

/// Identity freshness: every identity the plan writes under is distinct from
/// every identity in the fetched subtree and from every other written
/// identity.
pub proof fn lemma_identity_freshness(s: SubtreeModel, parent: Seq<char>, root: Seq<char>, cand: Seq<LinkModel>, fresh: Seq<Seq<char>>, link_id: Seq<char>, p: ClonePlan)
    requires
        distinct_seqs(all_ids(s)),
        fresh_supply_ok(all_ids(s), fresh, link_id, parent),
        clone_plan_post(Ok(p), s, parent, root, cand, fresh, link_id),
    ensures
        distinct_seqs(plan_all_ids(p)),
        seqs_disjoint(all_ids(s), plan_all_ids(p)),
{
    lemma_plan_id_sources(s, parent, root, cand, fresh, link_id, p);
}

/// Structural isomorphism: the remap is injective on the snapshot's
/// identities, sends the i-th original node's identity to the i-th clone's,
/// and carries the i-th original child-link edge onto the i-th cloned edge.
pub proof fn lemma_structural_isomorphism(s: SubtreeModel, parent: Seq<char>, root: Seq<char>, cand: Seq<LinkModel>, fresh: Seq<Seq<char>>, link_id: Seq<char>, p: ClonePlan)
    requires
        distinct_seqs(all_ids(s)),
        fresh_supply_ok(all_ids(s), fresh, link_id, parent),
        clone_plan_post(Ok(p), s, parent, root, cand, fresh, link_id),
    ensures
        nodes_view(p.nodes@).len() == s.nodes.len(),
        links_view(p.nodeChildLinks@).len() == s.nodeChildLinks.len(),
        forall|i: int| 0 <= i < s.nodes.len()
            ==> (#[trigger] nodes_view(p.nodes@)[i]).id == subtree_remap(s, fresh)[s.nodes[i].id],
        forall|i: int| 0 <= i < s.nodeChildLinks.len()
            ==> (#[trigger] links_view(p.nodeChildLinks@)[i]).parent == subtree_remap(s, fresh)[s.nodeChildLinks[i].parent]
                && links_view(p.nodeChildLinks@)[i].child == subtree_remap(s, fresh)[s.nodeChildLinks[i].child],
        forall|x: Seq<char>, y: Seq<char>|
            subtree_remap(s, fresh).dom().contains(x) && subtree_remap(s, fresh).dom().contains(y) && x != y
                ==> subtree_remap(s, fresh)[x] != subtree_remap(s, fresh)[y],
{
    let m = subtree_remap(s, fresh);
    lemma_pairs_map_props(all_ids(s), fresh);
    lemma_remap_props(all_ids(s), fresh);
    assert forall|i: int| 0 <= i < s.nodes.len()
        implies (#[trigger] nodes_view(p.nodes@)[i]).id == m[s.nodes[i].id] by {
        assert(nodes_view(p.nodes@)[i] == remapped_node(m, s.nodes[i]));
    }
    assert forall|i: int| 0 <= i < s.nodeChildLinks.len()
        implies (#[trigger] links_view(p.nodeChildLinks@)[i]).parent == m[s.nodeChildLinks[i].parent]
            && links_view(p.nodeChildLinks@)[i].child == m[s.nodeChildLinks[i].child] by {
        assert(links_view(p.nodeChildLinks@)[i] == remapped_link(m, s.nodeChildLinks[i]));
    }
}

/// Reference closure: every rewritten foreign field of a cloned node,
/// revision, phrasing or child-link targets the remapped identity, never a
/// pre-clone identity of the subtree.
pub proof fn lemma_reference_closure(s: SubtreeModel, parent: Seq<char>, root: Seq<char>, cand: Seq<LinkModel>, fresh: Seq<Seq<char>>, link_id: Seq<char>, p: ClonePlan)
    requires
        distinct_seqs(all_ids(s)),
        fresh_supply_ok(all_ids(s), fresh, link_id, parent),
        clone_plan_post(Ok(p), s, parent, root, cand, fresh, link_id),
    ensures
        forall|i: int| 0 <= i < s.nodes.len()
            ==> (#[trigger] nodes_view(p.nodes@)[i]).current_revision == subtree_remap(s, fresh)[s.nodes[i].current_revision]
                && !all_ids(s).contains(nodes_view(p.nodes@)[i].current_revision),
        forall|i: int| 0 <= i < s.nodeRevisions.len()
            ==> (#[trigger] revisions_view(p.nodeRevisions@)[i]).node == subtree_remap(s, fresh)[s.nodeRevisions[i].node]
                && !all_ids(s).contains(revisions_view(p.nodeRevisions@)[i].node),
        forall|i: int| 0 <= i < s.nodePhrasings.len()
            ==> (#[trigger] phrasings_view(p.nodePhrasings@)[i]).node == subtree_remap(s, fresh)[s.nodePhrasings[i].node]
                && !all_ids(s).contains(phrasings_view(p.nodePhrasings@)[i].node),
        forall|i: int| 0 <= i < s.nodeChildLinks.len()
            ==> !all_ids(s).contains((#[trigger] links_view(p.nodeChildLinks@)[i]).parent)
                && !all_ids(s).contains(links_view(p.nodeChildLinks@)[i].child),
        !all_ids(s).contains(p.rootLink@.child),
{
    let m = subtree_remap(s, fresh);
    lemma_pairs_map_props(all_ids(s), fresh);
    lemma_remap_props(all_ids(s), fresh);
    assert forall|i: int| 0 <= i < s.nodes.len()
        implies (#[trigger] nodes_view(p.nodes@)[i]).current_revision == m[s.nodes[i].current_revision]
            && !all_ids(s).contains(nodes_view(p.nodes@)[i].current_revision) by {
        assert(nodes_view(p.nodes@)[i] == remapped_node(m, s.nodes[i]));
        assert(m.dom().contains(s.nodes[i].current_revision));
    }
    assert forall|i: int| 0 <= i < s.nodeRevisions.len()
        implies (#[trigger] revisions_view(p.nodeRevisions@)[i]).node == m[s.nodeRevisions[i].node]
            && !all_ids(s).contains(revisions_view(p.nodeRevisions@)[i].node) by {
        assert(revisions_view(p.nodeRevisions@)[i] == remapped_revision(m, s.nodeRevisions[i]));
        assert(m.dom().contains(s.nodeRevisions[i].node));
    }
    assert forall|i: int| 0 <= i < s.nodePhrasings.len()
        implies (#[trigger] phrasings_view(p.nodePhrasings@)[i]).node == m[s.nodePhrasings[i].node]
            && !all_ids(s).contains(phrasings_view(p.nodePhrasings@)[i].node) by {
        assert(phrasings_view(p.nodePhrasings@)[i] == remapped_phrasing(m, s.nodePhrasings[i]));
        assert(m.dom().contains(s.nodePhrasings[i].node));
    }
    assert forall|i: int| 0 <= i < s.nodeChildLinks.len()
        implies !all_ids(s).contains((#[trigger] links_view(p.nodeChildLinks@)[i]).parent)
            && !all_ids(s).contains(links_view(p.nodeChildLinks@)[i].child) by {
        assert(links_view(p.nodeChildLinks@)[i] == remapped_link(m, s.nodeChildLinks[i]));
        assert(m.dom().contains(s.nodeChildLinks[i].parent));
        assert(m.dom().contains(s.nodeChildLinks[i].child));
    }
    assert(m.dom().contains(root));
    assert(p.rootLink@.child == m[root]) by {
        let i = choose|i: int| 0 <= i < cand.len() && link_matches(#[trigger] cand[i], parent, root)
            && (forall|j: int| 0 <= j < i ==> !link_matches(#[trigger] cand[j], parent, root))
            && p.rootLink@ == (LinkModel { id: link_id, parent: parent, child: m[root], extras: cand[i].extras });
    }
}

/// Attachment correctness: the attachment link carries the caller-supplied
/// parent, unchanged, to the root's new identity, and it is the only written
/// child-link whose parent is the caller-supplied parent.
pub proof fn lemma_attachment_correctness(s: SubtreeModel, parent: Seq<char>, root: Seq<char>, cand: Seq<LinkModel>, fresh: Seq<Seq<char>>, link_id: Seq<char>, p: ClonePlan)
    requires
        distinct_seqs(all_ids(s)),
        fresh_supply_ok(all_ids(s), fresh, link_id, parent),
        clone_plan_post(Ok(p), s, parent, root, cand, fresh, link_id),
    ensures
        p.rootLink@.id == link_id,
        p.rootLink@.parent == parent,
        p.rootLink@.child == subtree_remap(s, fresh)[root],
        forall|i: int| 0 <= i < links_view(p.nodeChildLinks@).len()
            ==> (#[trigger] links_view(p.nodeChildLinks@)[i]).parent != parent,
{
    let m = subtree_remap(s, fresh);
    lemma_pairs_map_props(all_ids(s), fresh);
    lemma_remap_props(all_ids(s), fresh);
    assert(p.rootLink@.id == link_id && p.rootLink@.parent == parent && p.rootLink@.child == m[root]) by {
        let i = choose|i: int| 0 <= i < cand.len() && link_matches(#[trigger] cand[i], parent, root)
            && (forall|j: int| 0 <= j < i ==> !link_matches(#[trigger] cand[j], parent, root))
            && p.rootLink@ == (LinkModel { id: link_id, parent: parent, child: m[root], extras: cand[i].extras });
    }
    assert forall|i: int| 0 <= i < links_view(p.nodeChildLinks@).len()
        implies (#[trigger] links_view(p.nodeChildLinks@)[i]).parent != parent by {
        assert(links_view(p.nodeChildLinks@)[i] == remapped_link(m, s.nodeChildLinks[i]));
        assert(m.dom().contains(s.nodeChildLinks[i].parent));
        assert(fresh.contains(m[s.nodeChildLinks[i].parent]));
        if m[s.nodeChildLinks[i].parent] == parent {
            assert(fresh.contains(parent));
        }
    }
}

/// Non-idempotence: two clone operations over the same snapshot, supplied
/// with disjoint fresh identities, write two disjoint sets of identities.
pub proof fn lemma_non_idempotence(
    s: SubtreeModel, parent: Seq<char>, root: Seq<char>, cand: Seq<LinkModel>,
    fresh1: Seq<Seq<char>>, link_id1: Seq<char>, p1: ClonePlan,
    fresh2: Seq<Seq<char>>, link_id2: Seq<char>, p2: ClonePlan,
)
    requires
        distinct_seqs(all_ids(s)),
        fresh_supply_ok(all_ids(s), fresh1, link_id1, parent),
        fresh_supply_ok(all_ids(s), fresh2, link_id2, parent),
        clone_plan_post(Ok(p1), s, parent, root, cand, fresh1, link_id1),
        clone_plan_post(Ok(p2), s, parent, root, cand, fresh2, link_id2),
        seqs_disjoint(fresh1, fresh2),
        link_id1 != link_id2,
        !fresh1.contains(link_id2),
        !fresh2.contains(link_id1),
    ensures
        seqs_disjoint(plan_all_ids(p1), plan_all_ids(p2)),
{
    lemma_plan_id_sources(s, parent, root, cand, fresh1, link_id1, p1);
    lemma_plan_id_sources(s, parent, root, cand, fresh2, link_id2, p2);
    let a1 = plan_all_ids(p1);
    let a2 = plan_all_ids(p2);
    assert forall|i: int, j: int| 0 <= i < a1.len() && 0 <= j < a2.len() implies a1[i] != a2[j] by {
        if i == 0 && j == 0 {
        } else if i == 0 {
            assert(fresh2.contains(a2[j]));
            if a2[j] == link_id1 {
                assert(fresh2.contains(link_id1));
            }
        } else if j == 0 {
            assert(fresh1.contains(a1[i]));
            if a1[i] == link_id2 {
                assert(fresh1.contains(link_id2));
            }
        } else {
            assert(fresh1.contains(a1[i]) && fresh2.contains(a2[j]));
            let k1 = choose|k: int| 0 <= k < fresh1.len() && fresh1[k] == a1[i];
            let k2 = choose|k: int| 0 <= k < fresh2.len() && fresh2[k] == a2[j];
            assert(fresh1[k1] != fresh2[k2]);
        }
    }
}

/// Depth bounding: one traversal round from the root reaches exactly the
/// root and the children its links lead to.
pub proof fn lemma_depth_bounding(links: Seq<LinkModel>, root: Seq<char>)
    ensures
        forall|x: Seq<char>| reachable_within(links, root, 1).contains(x)
            <==> (x == root || exists|i: int|
                0 <= i < links.len() && (#[trigger] links[i]).parent == root && links[i].child == x),
{
    let base = reachable_within(links, root, 0);
    assert(reachable_within(links, root, 1) == step_set(links, base));
    assert forall|x: Seq<char>| reachable_within(links, root, 1).contains(x)
        implies (x == root || exists|i: int|
            0 <= i < links.len() && (#[trigger] links[i]).parent == root && links[i].child == x) by {
        if x != root {
            let i = choose|i: int| 0 <= i < links.len() && base.contains((#[trigger] links[i]).parent) && links[i].child == x;
            assert(links[i].parent == root && links[i].child == x);
        }
    }
    assert forall|x: Seq<char>| (x == root || exists|i: int|
            0 <= i < links.len() && (#[trigger] links[i]).parent == root && links[i].child == x)
        implies reachable_within(links, root, 1).contains(x) by {
        if x != root {
            let i = choose|i: int| 0 <= i < links.len() && (#[trigger] links[i]).parent == root && links[i].child == x;
            assert(base.contains(links[i].parent));
            assert(step_set(links, base).contains(x));
        }
    }
}

} // verus!
