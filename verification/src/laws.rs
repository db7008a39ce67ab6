//! The engine's quantified laws, stated over the index model and proved
//! once and for all: what build yields, how search output is bounded and
//! ordered, what clear guarantees, and that removing a freshly added batch
//! restores the original state.

use vstd::prelude::*;
use crate::engine::{
    EmbeddedResource, EntryModel, Hit, IndexModel, SearchResultModel,
    covered_model, empty_model, expel, expel_one, has_entry_with_key, has_point_with_key,
    ingest, ingest_one, join_spec, keys_unique, lookup_spec, rec_fp, rec_point, remove_key_spec,
    strip_point_spec, upsert_spec, wf_model,
};

verus! {

// ---------------------------------------------------------------------------
// Build size: one table entry per distinct fingerprint
// ---------------------------------------------------------------------------

/// The distinct fingerprints of a batch.
pub open spec fn fp_set(rs: Seq<EmbeddedResource>) -> Set<u64>
    decreases rs.len(),
{
    if rs.len() == 0 {
        Set::empty()
    } else {
        fp_set(rs.drop_last()).insert(rec_fp(rs.last()))
    }
}

/// The set of fingerprints owning a table entry.
pub open spec fn keys_set(es: Seq<EntryModel>) -> Set<u64>
    decreases es.len(),
{
    if es.len() == 0 {
        Set::empty()
    } else {
        keys_set(es.drop_first()).insert(es[0].key)
    }
}

proof fn lemma_keys_set_finite(es: Seq<EntryModel>)
    ensures
        keys_set(es).finite(),
    decreases es.len(),
{
    if es.len() > 0 {
        lemma_keys_set_finite(es.drop_first());
    }
}

proof fn lemma_keys_set_member(es: Seq<EntryModel>, k: u64)
    ensures
        keys_set(es).contains(k) <==> has_entry_with_key(es, k),
    decreases es.len(),
{
    if es.len() == 0 {
        assert(!has_entry_with_key(es, k));
    } else {
        lemma_keys_set_member(es.drop_first(), k);
        if keys_set(es).contains(k) {
            if es[0].key == k {
                assert(es[0].key == k);
            } else {
                let i = choose|i: int| 0 <= i < es.drop_first().len() && (#[trigger] es.drop_first()[i]).key == k;
                assert(es[i + 1].key == k);
            }
        }
        if has_entry_with_key(es, k) {
            let i = choose|i: int| 0 <= i < es.len() && (#[trigger] es[i]).key == k;
            if i > 0 {
                assert(es.drop_first()[i - 1].key == k);
            }
        }
    }
}

proof fn lemma_keys_set_len(es: Seq<EntryModel>)
    requires
        keys_unique(es),
    ensures
        keys_set(es).len() == es.len(),
    decreases es.len(),
{
    lemma_keys_set_finite(es);
    if es.len() > 0 {
        assert(keys_unique(es.drop_first()));
        lemma_keys_set_len(es.drop_first());
        lemma_keys_set_finite(es.drop_first());
        lemma_keys_set_member(es.drop_first(), es[0].key);
        assert(!has_entry_with_key(es.drop_first(), es[0].key)) by {
            if has_entry_with_key(es.drop_first(), es[0].key) {
                let i = choose|i: int| 0 <= i < es.drop_first().len()
                    && (#[trigger] es.drop_first()[i]).key == es[0].key;
                assert(es[i + 1].key == es[0].key);
            }
        }
        assert(keys_set(es).len() == keys_set(es.drop_first()).len() + 1);
    }
}

proof fn lemma_upsert_keys_set(es: Seq<EntryModel>, key: u64, doc: crate::DocModel)
    ensures
        keys_set(upsert_spec(es, key, doc)) =~= keys_set(es).insert(key),
    decreases es.len(),
{
    let r = upsert_spec(es, key, doc);
    if es.len() == 0 {
        assert(r.len() == 1 && r[0] == (EntryModel { key, doc }));
        assert(r.drop_first() =~= Seq::<EntryModel>::empty());
        assert(keys_set(r.drop_first()) =~= Set::<u64>::empty());
        assert(keys_set(r) =~= Set::<u64>::empty().insert(key));
        assert(keys_set(es) =~= Set::<u64>::empty());
    } else if es[0].key == key {
        assert(r.len() == es.len() && r[0] == (EntryModel { key, doc }));
        assert(r.drop_first() =~= es.drop_first());
        assert(keys_set(r) =~= keys_set(es.drop_first()).insert(key));
        assert(keys_set(es) =~= keys_set(es.drop_first()).insert(key));
    } else {
        lemma_upsert_keys_set(es.drop_first(), key, doc);
        assert(r.len() > 0 && r[0] == es[0]);
        assert(r.drop_first() =~= upsert_spec(es.drop_first(), key, doc));
        assert(keys_set(r) =~= keys_set(upsert_spec(es.drop_first(), key, doc)).insert(es[0].key));
        assert(keys_set(r) =~= keys_set(es.drop_first()).insert(key).insert(es[0].key));
        assert(keys_set(es) =~= keys_set(es.drop_first()).insert(es[0].key));
    }
}

proof fn lemma_ingest_keys_set(m: IndexModel, rs: Seq<EmbeddedResource>)
    ensures
        keys_set(ingest(m, rs).entries) =~= keys_set(m.entries).union(fp_set(rs)),
    decreases rs.len(),
{
    if rs.len() == 0 {
        assert(keys_set(ingest(m, rs).entries) =~= keys_set(m.entries).union(Set::empty()));
    } else {
        lemma_ingest_keys_set(m, rs.drop_last());
        lemma_upsert_keys_set(ingest(m, rs.drop_last()).entries, rec_fp(rs.last()), crate::engine::rec_doc(rs.last()));
        assert(keys_set(ingest(m, rs).entries)
            =~= keys_set(m.entries).union(fp_set(rs.drop_last())).insert(rec_fp(rs.last())));
    }
}

/// Well-formedness of the fold itself, so that laws can be stated without
/// reference to any executable value.
pub proof fn lemma_ingest_wf(m: IndexModel, rs: Seq<EmbeddedResource>)
    requires
        wf_model(m),
    ensures
        wf_model(ingest(m, rs)),
        covered_model(m) ==> covered_model(ingest(m, rs)),
    decreases rs.len(),
{
    if rs.len() > 0 {
        lemma_ingest_wf(m, rs.drop_last());
        let b = ingest(m, rs.drop_last());
        let r = rs.last();
        crate::engine::lemma_ingest_one_wf(b, rec_fp(r), crate::engine::rec_doc(r), rec_point(r), ingest_one(b, r));
    }
}

/// The size of a freshly built index is the number of distinct
/// fingerprints in the batch.
pub proof fn lemma_build_size(rs: Seq<EmbeddedResource>)
    ensures
        ingest(empty_model(), rs).entries.len() == fp_set(rs).len(),
{
    lemma_ingest_wf(empty_model(), rs);
    lemma_ingest_keys_set(empty_model(), rs);
    lemma_keys_set_len(ingest(empty_model(), rs).entries);
    assert(keys_set(ingest(empty_model(), rs).entries) =~= fp_set(rs));
}

// ---------------------------------------------------------------------------
// Build equals add-on-empty
// ---------------------------------------------------------------------------

/// Building from a batch is the same as building from nothing and then
/// adding the batch.
pub proof fn lemma_build_is_add_on_empty(rs: Seq<EmbeddedResource>)
    ensures
        ingest(ingest(empty_model(), Seq::empty()), rs) == ingest(empty_model(), rs),
{
}

// ---------------------------------------------------------------------------
// Search output: bounded, ordered, and empty on an empty table
// ---------------------------------------------------------------------------

pub open spec fn hits_sorted(hits: Seq<Hit>) -> bool {
    forall|i: int, j: int| 0 <= i <= j < hits.len() ==> (#[trigger] hits[i]).distance <= (#[trigger] hits[j]).distance
}

pub open spec fn results_sorted(rs: Seq<SearchResultModel>) -> bool {
    forall|i: int, j: int| 0 <= i <= j < rs.len() ==> (#[trigger] rs[i]).distance <= (#[trigger] rs[j]).distance
}

proof fn lemma_join_lower_bound(es: Seq<EntryModel>, hits: Seq<Hit>, k: int, d: u32)
    requires
        forall|i: int| 0 <= i < hits.len() ==> d <= (#[trigger] hits[i]).distance,
    ensures
        forall|i: int| 0 <= i < join_spec(es, hits, k).len() ==> d <= (#[trigger] join_spec(es, hits, k)[i]).distance,
    decreases hits.len(),
{
    if hits.len() == 0 || k <= 0 {
    } else {
        assert(forall|i: int| 0 <= i < hits.drop_first().len() ==> d <= (#[trigger] hits.drop_first()[i]).distance);
        match lookup_spec(es, hits[0].item) {
            Some(doc) => {
                lemma_join_lower_bound(es, hits.drop_first(), k - 1, d);
                assert forall|i: int| 0 <= i < join_spec(es, hits, k).len()
                    implies d <= (#[trigger] join_spec(es, hits, k)[i]).distance
                by {
                    if i > 0 {
                        assert(join_spec(es, hits, k)[i] == join_spec(es, hits.drop_first(), k - 1)[i - 1]);
                    }
                }
            },
            None => {
                lemma_join_lower_bound(es, hits.drop_first(), k, d);
                assert forall|i: int| 0 <= i < join_spec(es, hits, k).len()
                    implies d <= (#[trigger] join_spec(es, hits, k)[i]).distance
                by {
                    assert(join_spec(es, hits, k)[i] == join_spec(es, hits.drop_first(), k)[i]);
                }
            },
        }
    }
}

/// Search results come out ordered by non-decreasing distance — that is,
/// non-increasing similarity — whenever the neighbour list is so ordered.
pub proof fn lemma_join_sorted(es: Seq<EntryModel>, hits: Seq<Hit>, k: int)
    requires
        hits_sorted(hits),
    ensures
        results_sorted(join_spec(es, hits, k)),
    decreases hits.len(),
{
    if hits.len() == 0 || k <= 0 {
    } else {
        assert(hits_sorted(hits.drop_first()));
        match lookup_spec(es, hits[0].item) {
            Some(doc) => {
                lemma_join_sorted(es, hits.drop_first(), k - 1);
                assert(forall|i: int| 0 <= i < hits.drop_first().len()
                    ==> hits[0].distance <= (#[trigger] hits.drop_first()[i]).distance);
                lemma_join_lower_bound(es, hits.drop_first(), k - 1, hits[0].distance);
                assert forall|i: int, j: int| 0 <= i <= j < join_spec(es, hits, k).len()
                    implies (#[trigger] join_spec(es, hits, k)[i]).distance
                        <= (#[trigger] join_spec(es, hits, k)[j]).distance
                by {
                    if i > 0 {
                        assert(join_spec(es, hits, k)[i] == join_spec(es, hits.drop_first(), k - 1)[i - 1]);
                        assert(join_spec(es, hits, k)[j] == join_spec(es, hits.drop_first(), k - 1)[j - 1]);
                    } else if j > 0 {
                        assert(join_spec(es, hits, k)[j] == join_spec(es, hits.drop_first(), k - 1)[j - 1]);
                    }
                }
            },
            None => {
                lemma_join_sorted(es, hits.drop_first(), k);
                assert forall|i: int, j: int| 0 <= i <= j < join_spec(es, hits, k).len()
                    implies (#[trigger] join_spec(es, hits, k)[i]).distance
                        <= (#[trigger] join_spec(es, hits, k)[j]).distance
                by {
                    assert(join_spec(es, hits, k)[i] == join_spec(es, hits.drop_first(), k)[i]);
                    assert(join_spec(es, hits, k)[j] == join_spec(es, hits.drop_first(), k)[j]);
                }
            },
        }
    }
}

/// The head of the neighbour list, when its fingerprint resolves, becomes
/// the first search result, carrying that neighbour's distance. With an
/// exact tree, a query equal to a stored vector arrives as the head
/// neighbour at distance zero, so that document is returned first.
pub proof fn lemma_join_first(es: Seq<EntryModel>, hits: Seq<Hit>, k: int)
    requires
        k > 0,
        hits.len() > 0,
        lookup_spec(es, hits[0].item) is Some,
    ensures
        join_spec(es, hits, k).len() > 0,
        join_spec(es, hits, k)[0] == (SearchResultModel {
            doc: lookup_spec(es, hits[0].item)->Some_0,
            distance: hits[0].distance,
        }),
{
}

/// After clear — whose result is the empty model — every search returns
/// the empty list, and the size is zero.
pub proof fn lemma_search_after_clear(hits: Seq<Hit>, k: int)
    ensures
        join_spec(empty_model().entries, hits, k) == Seq::<SearchResultModel>::empty(),
        empty_model().entries.len() == 0,
{
    crate::engine::lemma_join_empty_table(hits, k);
}


// ---------------------------------------------------------------------------
// Remove after add restores the state
// ---------------------------------------------------------------------------

proof fn lemma_strip_push_absent(ps: Seq<crate::engine::PointModel>, p: crate::engine::PointModel)
    requires
        forall|i: int| 0 <= i < ps.len() ==> ps[i] != p,
    ensures
        strip_point_spec(ps.push(p), p) =~= ps,
    decreases ps.len(),
{
    if ps.len() == 0 {
        assert(ps.push(p)[0] == p);
        assert(ps.push(p).drop_first() =~= Seq::<crate::engine::PointModel>::empty());
        assert(strip_point_spec(ps.push(p).drop_first(), p) =~= Seq::<crate::engine::PointModel>::empty());
    } else {
        assert(ps.push(p)[0] == ps[0]);
        assert(ps[0] != p);
        assert(ps.push(p).drop_first() =~= ps.drop_first().push(p));
        assert(forall|i: int| 0 <= i < ps.drop_first().len() ==> ps.drop_first()[i] != p);
        lemma_strip_push_absent(ps.drop_first(), p);
        assert(strip_point_spec(ps.push(p), p)
            =~= seq![ps[0]] + strip_point_spec(ps.drop_first().push(p), p));
    }
}

proof fn lemma_remove_key_push_absent(es: Seq<EntryModel>, e: EntryModel)
    requires
        forall|i: int| 0 <= i < es.len() ==> (#[trigger] es[i]).key != e.key,
    ensures
        remove_key_spec(es.push(e), e.key) =~= es,
    decreases es.len(),
{
    if es.len() == 0 {
        assert(es.push(e)[0] == e);
        assert(es.push(e).drop_first() =~= Seq::<EntryModel>::empty());
    } else {
        assert(es.push(e)[0] == es[0]);
        assert(es.push(e).drop_first() =~= es.drop_first().push(e));
        lemma_remove_key_push_absent(es.drop_first(), e);
        assert(remove_key_spec(es.push(e), e.key)
            =~= seq![es[0]] + remove_key_spec(es.drop_first().push(e), e.key));
    }
}

/// Adding one absent record and then removing it restores the state.
proof fn lemma_cancel_one(m: IndexModel, r: EmbeddedResource)
    requires
        wf_model(m),
        covered_model(m),
        !has_entry_with_key(m.entries, rec_fp(r)),
    ensures
        expel_one(ingest_one(m, r), r) == m,
{
    let key = rec_fp(r);
    let p = rec_point(r);
    // no stored point carries the absent fingerprint
    assert forall|i: int| 0 <= i < m.points.len() implies m.points[i] != p by {
        if m.points[i].key == key {
            assert(has_entry_with_key(m.entries, (#[trigger] m.points[i]).key));
        }
    }
    lemma_strip_push_absent(m.points, p);
    assert forall|i: int| 0 <= i < m.entries.len() implies (#[trigger] m.entries[i]).key != key by {
        if m.entries[i].key == key {
            assert(has_entry_with_key(m.entries, key));
        }
    }
    crate::engine::lemma_upsert_absent(m.entries, key, crate::engine::rec_doc(r));
    lemma_remove_key_push_absent(m.entries, EntryModel { key, doc: crate::engine::rec_doc(r) });
    assert(expel_one(ingest_one(m, r), r).points =~= m.points);
    assert(expel_one(ingest_one(m, r), r).entries =~= m.entries);
}

proof fn lemma_strip_push_other(
    ps: Seq<crate::engine::PointModel>,
    p1: crate::engine::PointModel,
    p2: crate::engine::PointModel,
)
    requires
        p1 != p2,
    ensures
        strip_point_spec(ps.push(p2), p1) =~= strip_point_spec(ps, p1).push(p2),
    decreases ps.len(),
{
    reveal_with_fuel(strip_point_spec, 3);
    if ps.len() == 0 {
        assert(ps.push(p2)[0] == p2);
        assert(ps.push(p2).drop_first() =~= Seq::<crate::engine::PointModel>::empty());
        assert(strip_point_spec(ps, p1) =~= Seq::<crate::engine::PointModel>::empty());
        assert(strip_point_spec(ps.push(p2), p1) =~= seq![p2]);
        assert(strip_point_spec(ps, p1).push(p2) =~= seq![p2]);
    } else {
        assert(ps.push(p2)[0] == ps[0]);
        assert(ps.push(p2).drop_first() =~= ps.drop_first().push(p2));
        lemma_strip_push_other(ps.drop_first(), p1, p2);
        assert(strip_point_spec(ps.push(p2), p1)
            =~= (if ps[0] == p1 { Seq::<crate::engine::PointModel>::empty() } else { seq![ps[0]] })
                + strip_point_spec(ps.drop_first().push(p2), p1));
    }
}

proof fn lemma_remove_upsert_other(es: Seq<EntryModel>, k1: u64, k2: u64, d2: crate::DocModel)
    requires
        k1 != k2,
    ensures
        remove_key_spec(upsert_spec(es, k2, d2), k1) =~= upsert_spec(remove_key_spec(es, k1), k2, d2),
    decreases es.len(),
{
    reveal_with_fuel(upsert_spec, 3);
    reveal_with_fuel(remove_key_spec, 3);
    if es.len() == 0 {
        assert(upsert_spec(es, k2, d2) =~= seq![EntryModel { key: k2, doc: d2 }]);
        assert(remove_key_spec(upsert_spec(es, k2, d2), k1)
            =~= seq![EntryModel { key: k2, doc: d2 }] + remove_key_spec(Seq::<EntryModel>::empty(), k1));
        assert(remove_key_spec(es, k1) =~= Seq::<EntryModel>::empty());
    } else if es[0].key == k1 {
        assert(upsert_spec(es, k2, d2) =~= seq![es[0]] + upsert_spec(es.drop_first(), k2, d2));
        assert((seq![es[0]] + upsert_spec(es.drop_first(), k2, d2))[0] == es[0]);
        assert((seq![es[0]] + upsert_spec(es.drop_first(), k2, d2)).drop_first()
            =~= upsert_spec(es.drop_first(), k2, d2));
        assert(remove_key_spec(upsert_spec(es, k2, d2), k1) =~= upsert_spec(es.drop_first(), k2, d2));
        assert(remove_key_spec(es, k1) =~= es.drop_first());
    } else if es[0].key == k2 {
        assert(upsert_spec(es, k2, d2) =~= seq![EntryModel { key: k2, doc: d2 }] + es.drop_first());
        assert(upsert_spec(es, k2, d2)[0] == (EntryModel { key: k2, doc: d2 }));
        assert(upsert_spec(es, k2, d2).drop_first() =~= es.drop_first());
        assert(remove_key_spec(upsert_spec(es, k2, d2), k1)
            =~= seq![EntryModel { key: k2, doc: d2 }] + remove_key_spec(es.drop_first(), k1));
        assert(remove_key_spec(es, k1) =~= seq![es[0]] + remove_key_spec(es.drop_first(), k1));
        assert((seq![es[0]] + remove_key_spec(es.drop_first(), k1))[0] == es[0]);
        assert((seq![es[0]] + remove_key_spec(es.drop_first(), k1)).drop_first()
            =~= remove_key_spec(es.drop_first(), k1));
        assert(upsert_spec(remove_key_spec(es, k1), k2, d2)
            =~= seq![EntryModel { key: k2, doc: d2 }] + remove_key_spec(es.drop_first(), k1));
    } else {
        lemma_remove_upsert_other(es.drop_first(), k1, k2, d2);
        assert(upsert_spec(es, k2, d2) =~= seq![es[0]] + upsert_spec(es.drop_first(), k2, d2));
        assert((seq![es[0]] + upsert_spec(es.drop_first(), k2, d2))[0] == es[0]);
        assert((seq![es[0]] + upsert_spec(es.drop_first(), k2, d2)).drop_first()
            =~= upsert_spec(es.drop_first(), k2, d2));
        assert(remove_key_spec(upsert_spec(es, k2, d2), k1)
            =~= seq![es[0]] + remove_key_spec(upsert_spec(es.drop_first(), k2, d2), k1));
        assert(remove_key_spec(es, k1) =~= seq![es[0]] + remove_key_spec(es.drop_first(), k1));
        assert((seq![es[0]] + remove_key_spec(es.drop_first(), k1))[0] == es[0]);
        assert((seq![es[0]] + remove_key_spec(es.drop_first(), k1)).drop_first()
            =~= remove_key_spec(es.drop_first(), k1));
        assert(upsert_spec(remove_key_spec(es, k1), k2, d2)
            =~= seq![es[0]] + upsert_spec(remove_key_spec(es.drop_first(), k1), k2, d2));
    }
}

/// Expelling one record commutes with ingesting another of a different
/// fingerprint.
proof fn lemma_commute_one(x: IndexModel, r1: EmbeddedResource, r2: EmbeddedResource)
    requires
        rec_fp(r1) != rec_fp(r2),
    ensures
        expel_one(ingest_one(x, r2), r1) == ingest_one(expel_one(x, r1), r2),
{
    assert(rec_point(r1) != rec_point(r2));
    lemma_strip_push_other(x.points, rec_point(r1), rec_point(r2));
    lemma_remove_upsert_other(x.entries, rec_fp(r1), rec_fp(r2), crate::engine::rec_doc(r2));
}

/// Expelling a batch commutes with ingesting one record whose fingerprint
/// is not in the batch.
proof fn lemma_expel_commute(x: IndexModel, rs: Seq<EmbeddedResource>, r: EmbeddedResource)
    requires
        forall|i: int| 0 <= i < rs.len() ==> rec_fp(#[trigger] rs[i]) != rec_fp(r),
    ensures
        expel(ingest_one(x, r), rs) == ingest_one(expel(x, rs), r),
    decreases rs.len(),
{
    if rs.len() > 0 {
        assert(forall|i: int| 0 <= i < rs.drop_last().len() ==> rec_fp(#[trigger] rs.drop_last()[i]) != rec_fp(r));
        lemma_expel_commute(x, rs.drop_last(), r);
        assert(rec_fp(rs.last()) != rec_fp(r));
        lemma_commute_one(expel(x, rs.drop_last()), rs.last(), r);
    }
}

/// Removing a batch just added restores the original index, provided the
/// batch's fingerprints are pairwise distinct and none of them was already
/// present in the table.
pub proof fn lemma_remove_after_add(m: IndexModel, rs: Seq<EmbeddedResource>)
    requires
        wf_model(m),
        covered_model(m),
        forall|i: int, j: int| 0 <= i < j < rs.len() ==> rec_fp(#[trigger] rs[i]) != rec_fp(#[trigger] rs[j]),
        forall|i: int| 0 <= i < rs.len() ==> !has_entry_with_key(m.entries, rec_fp(#[trigger] rs[i])),
    ensures
        expel(ingest(m, rs), rs) == m,
    decreases rs.len(),
{
    if rs.len() > 0 {
        let rs0 = rs.drop_last();
        let r = rs.last();
        assert(forall|i: int, j: int| 0 <= i < j < rs0.len() ==> rec_fp(#[trigger] rs0[i]) != rec_fp(#[trigger] rs0[j]));
        assert(forall|i: int| 0 <= i < rs0.len() ==> !has_entry_with_key(m.entries, rec_fp(#[trigger] rs0[i])));
        assert(forall|i: int| 0 <= i < rs0.len() ==> rec_fp(#[trigger] rs0[i]) != rec_fp(r)) by {
            assert(forall|i: int| 0 <= i < rs0.len() ==> rs0[i] == rs[i]);
        }
        lemma_expel_commute(ingest(m, rs0), rs0, r);
        assert(expel(ingest(m, rs), rs)
            == expel_one(expel(ingest_one(ingest(m, rs0), r), rs0), r));
        assert(expel(ingest_one(ingest(m, rs0), r), rs0) == ingest_one(expel(ingest(m, rs0), rs0), r));
        lemma_remove_after_add(m, rs0);
        lemma_ingest_wf(m, rs0);
        lemma_cancel_one(m, r);
    }
}

} // verus!
