//! The identity remap: an injective mapping from every identity present in
//! the fetched subtree to a freshly generated identity.
//!
//! The mapping is held in an `indexmap::IndexMap` keyed by the old identity.
//! The map's abstract contents are named by [`id_map_view`]; the few trusted
//! wrappers below state, over that name, what the crate's source shows of
//! `new`, `insert` and `get`.
use vstd::prelude::*;

use crate::entities::distinct_seqs;
use indexmap::IndexMap;

verus! {

#[verifier::external_type_specification]
#[verifier::external_body]
#[verifier::reject_recursive_types(K)]
#[verifier::reject_recursive_types(V)]
#[verifier::reject_recursive_types(S)]
pub struct ExIndexMap<K, V, S>(IndexMap<K, V, S>);

/// The abstract contents of an identity remap table: which new identity each
/// old identity is mapped to.
pub uninterp spec fn id_map_view(m: IndexMap<String, String>) -> Map<Seq<char>, Seq<char>>;

/// The empty remap contents.
pub open spec fn empty_id_map() -> Map<Seq<char>, Seq<char>> {
    Map::empty()
}

/// Relies on `IndexMap::new`: the new map is empty.
#[verifier::external_body]
fn id_map_new() -> (m: IndexMap<String, String>)
    ensures
        id_map_view(m) == empty_id_map(),
{
    IndexMap::new()
}

/// Relies on `IndexMap::insert`: the pair is added, replacing the value of an
/// equivalent key; `String` equivalence is character equality.
#[verifier::external_body]
fn id_map_insert(m: &mut IndexMap<String, String>, k: String, v: String)
    ensures
        id_map_view(*final(m)) == id_map_view(*old(m)).insert(k@, v@),
{
    m.insert(k, v);
}

/// Relies on `IndexMap::get`: returns the value stored under the key, or
/// `None` when no equivalent key is present.
#[verifier::external_body]
pub(crate) fn id_map_get<'a>(m: &'a IndexMap<String, String>, k: &String) -> (r: Option<&'a String>)
    ensures
        match r {
            Some(v) => id_map_view(*m).dom().contains(k@) && v@ == id_map_view(*m)[k@],
            None => !id_map_view(*m).dom().contains(k@),
        },
{
    m.get(k)
}

/// The mapping built by inserting `keys[i] -> vals[i]` in order.
pub open spec fn pairs_map(keys: Seq<Seq<char>>, vals: Seq<Seq<char>>) -> Map<Seq<char>, Seq<char>>
    decreases keys.len(),
{
    if keys.len() == 0 || vals.len() == 0 {
        Map::empty()
    } else {
        pairs_map(keys.drop_last(), vals.drop_last()).insert(keys.last(), vals.last())
    }
}

/// No identity of `a` occurs in `b`.
pub open spec fn seqs_disjoint(a: Seq<Seq<char>>, b: Seq<Seq<char>>) -> bool {
    forall|i: int, j: int| 0 <= i < a.len() && 0 <= j < b.len() ==> a[i] != b[j]
}

/// With distinct keys, the pair map's domain is exactly the key set and each
/// key is sent to the value at its position.
pub proof fn lemma_pairs_map_props(keys: Seq<Seq<char>>, vals: Seq<Seq<char>>)
    requires
        keys.len() == vals.len(),
        distinct_seqs(keys),
    ensures
        forall|x: Seq<char>| #[trigger] pairs_map(keys, vals).dom().contains(x) <==> keys.contains(x),
        forall|i: int| 0 <= i < keys.len() ==> pairs_map(keys, vals)[keys[i]] == vals[i],
    decreases keys.len(),
{
    if keys.len() == 0 {
        assert(forall|x: Seq<char>| !keys.contains(x));
    } else {
        let kd = keys.drop_last();
        let vd = vals.drop_last();
        lemma_pairs_map_props(kd, vd);
        let m = pairs_map(keys, vals);
        assert forall|x: Seq<char>| #[trigger] m.dom().contains(x) implies keys.contains(x) by {
            if x == keys.last() {
                assert(keys[keys.len() - 1] == x);
            } else {
                assert(pairs_map(kd, vd).dom().contains(x));
                assert(kd.contains(x));
                let i = choose|i: int| 0 <= i < kd.len() && kd[i] == x;
                assert(keys[i] == x);
            }
        }
        assert forall|x: Seq<char>| keys.contains(x) implies m.dom().contains(x) by {
            let i = choose|i: int| 0 <= i < keys.len() && keys[i] == x;
            if i < keys.len() - 1 {
                assert(kd[i] == x);
                assert(kd.contains(x));
                assert(pairs_map(kd, vd).dom().contains(x));
            } else {
                assert(x == keys.last());
            }
        }
        assert forall|i: int| 0 <= i < keys.len() implies m[keys[i]] == vals[i] by {
            if i < keys.len() - 1 {
                assert(keys[i] != keys.last());
                assert(kd[i] == keys[i] && vd[i] == vals[i]);
            }
        }
    }
}

/// Identity freshness at the level of the remap: with distinct keys, distinct
/// fresh values, and the two sets disjoint, the remap is injective and every
/// remapped identity is a fresh value, distinct from every old identity.
pub proof fn lemma_remap_props(keys: Seq<Seq<char>>, vals: Seq<Seq<char>>)
    requires
        keys.len() == vals.len(),
        distinct_seqs(keys),
        distinct_seqs(vals),
        seqs_disjoint(keys, vals),
    ensures
        forall|x: Seq<char>, y: Seq<char>|
            pairs_map(keys, vals).dom().contains(x) && pairs_map(keys, vals).dom().contains(y)
                && x != y ==> pairs_map(keys, vals)[x] != pairs_map(keys, vals)[y],
        forall|x: Seq<char>| #[trigger] pairs_map(keys, vals).dom().contains(x)
            ==> vals.contains(pairs_map(keys, vals)[x]),
        forall|x: Seq<char>| #[trigger] pairs_map(keys, vals).dom().contains(x)
            ==> !keys.contains(pairs_map(keys, vals)[x]),
{
    lemma_pairs_map_props(keys, vals);
    let m = pairs_map(keys, vals);
    assert forall|x: Seq<char>, y: Seq<char>|
        m.dom().contains(x) && m.dom().contains(y) && x != y implies m[x] != m[y] by {
        let i = choose|i: int| 0 <= i < keys.len() && keys[i] == x;
        let j = choose|j: int| 0 <= j < keys.len() && keys[j] == y;
        assert(m[x] == vals[i] && m[y] == vals[j]);
        assert(i != j);
    }
    assert forall|x: Seq<char>| #[trigger] m.dom().contains(x) implies vals.contains(m[x]) by {
        let i = choose|i: int| 0 <= i < keys.len() && keys[i] == x;
        assert(m[x] == vals[i]);
    }
    assert forall|x: Seq<char>| #[trigger] m.dom().contains(x) implies !keys.contains(m[x]) by {
        let i = choose|i: int| 0 <= i < keys.len() && keys[i] == x;
        assert(m[x] == vals[i]);
        if keys.contains(m[x]) {
            let j = choose|j: int| 0 <= j < keys.len() && keys[j] == m[x];
            assert(keys[j] == vals[i]);
        }
    }
}

/// Builds the identity remap: `ids[i]` is sent to `fresh[i]`.
pub fn build_id_map(ids: &Vec<String>, fresh: &Vec<String>) -> (m: IndexMap<String, String>)
    requires
        ids@.len() == fresh@.len(),
    ensures
        id_map_view(m) == pairs_map(ids.deep_view(), fresh.deep_view()),
{
    let mut m = id_map_new();
    let mut i: usize = 0;
    proof {
        assert(pairs_map(ids.deep_view().take(0), fresh.deep_view().take(0))
            =~= Map::<Seq<char>, Seq<char>>::empty());
    }
    while i < ids.len()
        invariant
            i <= ids@.len(),
            ids@.len() == fresh@.len(),
            id_map_view(m) == pairs_map(ids.deep_view().take(i as int), fresh.deep_view().take(i as int)),
        decreases ids@.len() - i,
    {
        id_map_insert(&mut m, ids[i].clone(), fresh[i].clone());
        proof {
            let kpre = ids.deep_view().take(i as int);
            let vpre = fresh.deep_view().take(i as int);
            let knext = ids.deep_view().take(i + 1);
            let vnext = fresh.deep_view().take(i + 1);
            assert(knext.drop_last() =~= kpre);
            assert(vnext.drop_last() =~= vpre);
            assert(knext.last() == ids.deep_view()[i as int]);
            assert(vnext.last() == fresh.deep_view()[i as int]);
            assert(pairs_map(knext, vnext) == pairs_map(kpre, vpre).insert(ids.deep_view()[i as int], fresh.deep_view()[i as int]));
        }
        i = i + 1;
    }
    proof {
        assert(ids.deep_view().take(ids@.len() as int) =~= ids.deep_view());
        assert(fresh.deep_view().take(fresh@.len() as int) =~= fresh.deep_view());
    }
    m
}

} // verus!
