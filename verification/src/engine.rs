//! The index engine: normalization, the point list, the document table,
//! and the mutation and retrieval operations that keep them coherent.
//!
//! The engine stores every embedding as a vector of exactly [`DIM`] 32-bit
//! words (the bit patterns of the embedding's float entries, padded with the
//! bits of positive zero and truncated past [`DIM`]). Nearest-neighbour
//! distances are computed by the host from the stored points; the engine's
//! `search` takes the host's neighbour list and performs the verified join
//! against the document table.

use vstd::prelude::*;
use crate::{Document, DocModel, DIM};
use crate::fingerprint::{fingerprint, fp_doc};

verus! {

// ---------------------------------------------------------------------------
// Records submitted to build / add / remove
// ---------------------------------------------------------------------------

/// One record of a resource batch: document metadata plus its embedding,
/// given as the bit patterns of the embedding's 32-bit float entries.
pub struct EmbeddedResource {
    pub id: String,
    pub title: String,
    pub url: String,
    pub embeddings: Vec<u32>,
}

/// A batch of records submitted to build, add or remove.
pub struct Resource {
    pub embeddings: Vec<EmbeddedResource>,
}

/// The document metadata of a record.
pub open spec fn rec_doc(r: EmbeddedResource) -> DocModel {
    DocModel { id: r.id@, title: r.title@, url: r.url@ }
}

/// The fingerprint a record is keyed by.
pub open spec fn rec_fp(r: EmbeddedResource) -> u64 {
    fp_doc(rec_doc(r))
}

// ---------------------------------------------------------------------------
// Vector normalization
// ---------------------------------------------------------------------------

/// An input vector brought to exactly `DIM` entries: short inputs are
/// right-padded with zero bits (the bit pattern of positive zero), long
/// inputs are truncated.
pub open spec fn norm_spec(v: Seq<u32>) -> Seq<u32> {
    Seq::new(DIM as nat, |i: int| if i < v.len() { v[i] } else { 0u32 })
}

/// The stored point a record contributes.
pub open spec fn rec_point(r: EmbeddedResource) -> PointModel {
    PointModel { vector: norm_spec(r.embeddings@), key: rec_fp(r) }
}

/// Pad or truncate an input vector to exactly `DIM` entries.
pub fn normalize(v: &Vec<u32>) -> (r: Vec<u32>)
    ensures
        r@ == norm_spec(v@),
{
    let mut out: Vec<u32> = Vec::new();
    let mut i: usize = 0;
    while i < DIM
        invariant
            i <= DIM,
            out@ == norm_spec(v@).take(i as int),
        decreases DIM - i,
    {
        let x: u32 = if i < v.len() { v[i] } else { 0u32 };
        proof {
            assert(norm_spec(v@).take(i + 1) =~= norm_spec(v@).take(i as int).push(x));
        }
        out.push(x);
        i = i + 1;
    }
    proof {
        assert(norm_spec(v@).take(DIM as int) =~= norm_spec(v@));
    }
    out
}

// ---------------------------------------------------------------------------
// Stored state and its mathematical model
// ---------------------------------------------------------------------------

/// One stored point: a normalized vector and the fingerprint it carries.
pub struct Point {
    pub vector: Vec<u32>,
    pub key: u64,
}

/// The mathematical value of a stored point.
pub struct PointModel {
    pub vector: Seq<u32>,
    pub key: u64,
}

impl View for Point {
    type V = PointModel;

    open spec fn view(&self) -> PointModel {
        PointModel { vector: self.vector@, key: self.key }
    }
}

/// One document-table entry.
pub struct Entry {
    pub key: u64,
    pub doc: Document,
}

/// The mathematical value of a document-table entry.
pub struct EntryModel {
    pub key: u64,
    pub doc: DocModel,
}

impl View for Entry {
    type V = EntryModel;

    open spec fn view(&self) -> EntryModel {
        EntryModel { key: self.key, doc: self.doc@ }
    }
}

pub open spec fn vpoints(s: Seq<Point>) -> Seq<PointModel> {
    s.map_values(|p: Point| p@)
}

pub open spec fn ventries(s: Seq<Entry>) -> Seq<EntryModel> {
    s.map_values(|e: Entry| e@)
}

/// The mathematical value of an index: the stored points, in insertion
/// order, and the document table, in entry order.
pub struct IndexModel {
    pub points: Seq<PointModel>,
    pub entries: Seq<EntryModel>,
}

/// The index: the point store and the document table.
pub struct Index {
    points: Vec<Point>,
    entries: Vec<Entry>,
}

impl View for Index {
    type V = IndexModel;

    closed spec fn view(&self) -> IndexModel {
        IndexModel { points: vpoints(self.points@), entries: ventries(self.entries@) }
    }
}

pub open spec fn empty_model() -> IndexModel {
    IndexModel { points: Seq::empty(), entries: Seq::empty() }
}

// ---------------------------------------------------------------------------
// Well-formedness
// ---------------------------------------------------------------------------

/// No fingerprint owns more than one table entry.
pub open spec fn keys_unique(es: Seq<EntryModel>) -> bool {
    forall|i: int, j: int| 0 <= i < j < es.len() ==> es[i].key != es[j].key
}

/// Every stored point holds exactly `DIM` entries.
pub open spec fn points_dim_ok(ps: Seq<PointModel>) -> bool {
    forall|i: int| 0 <= i < ps.len() ==> (#[trigger] ps[i].vector).len() == DIM
}

/// Some stored point carries the given fingerprint.
pub open spec fn has_point_with_key(ps: Seq<PointModel>, key: u64) -> bool {
    exists|j: int| 0 <= j < ps.len() && (#[trigger] ps[j]).key == key
}

/// Some table entry owns the given fingerprint.
pub open spec fn has_entry_with_key(es: Seq<EntryModel>, key: u64) -> bool {
    exists|i: int| 0 <= i < es.len() && (#[trigger] es[i]).key == key
}

/// Every table entry is backed by at least one stored point.
pub open spec fn entries_have_points(m: IndexModel) -> bool {
    forall|i: int| 0 <= i < m.entries.len() ==> has_point_with_key(m.points, (#[trigger] m.entries[i]).key)
}

/// Every stored point's fingerprint has a table entry. This holds after
/// build, add and clear; a remove whose vector does not match a stored
/// point of the same fingerprint may leave that point orphaned.
pub open spec fn covered_model(m: IndexModel) -> bool {
    forall|j: int| 0 <= j < m.points.len() ==> has_entry_with_key(m.entries, (#[trigger] m.points[j]).key)
}

pub open spec fn wf_model(m: IndexModel) -> bool {
    &&& keys_unique(m.entries)
    &&& points_dim_ok(m.points)
    &&& entries_have_points(m)
}

impl Index {
    pub open spec fn wf(&self) -> bool {
        wf_model(self@)
    }

    /// An empty index.
    pub fn new() -> (r: Index)
        ensures
            r@ == empty_model(),
            r.wf(),
            covered_model(r@),
    {
        let r = Index { points: Vec::new(), entries: Vec::new() };
        proof {
            assert(r@.points =~= Seq::<PointModel>::empty());
            assert(r@.entries =~= Seq::<EntryModel>::empty());
        }
        r
    }

    /// The stored points, in insertion order.
    pub fn points(&self) -> (r: &Vec<Point>)
        ensures
            vpoints(r@) == self@.points,
    {
        &self.points
    }

    /// The document table, in entry order.
    pub fn entries(&self) -> (r: &Vec<Entry>)
        ensures
            ventries(r@) == self@.entries,
    {
        &self.entries
    }

    /// Assemble an index from its two stores.
    pub fn from_parts(points: Vec<Point>, entries: Vec<Entry>) -> (r: Index)
        ensures
            r@.points == vpoints(points@),
            r@.entries == ventries(entries@),
    {
        Index { points, entries }
    }
}

// ---------------------------------------------------------------------------
// Table operations, specified head-first over the entry sequence
// ---------------------------------------------------------------------------

/// The document under a fingerprint: the first matching entry.
pub open spec fn lookup_spec(es: Seq<EntryModel>, key: u64) -> Option<DocModel>
    decreases es.len(),
{
    if es.len() == 0 {
        None
    } else if es[0].key == key {
        Some(es[0].doc)
    } else {
        lookup_spec(es.drop_first(), key)
    }
}

/// Insert-or-overwrite: a present fingerprint keeps its position and takes
/// the new document; an absent one is appended.
pub open spec fn upsert_spec(es: Seq<EntryModel>, key: u64, doc: DocModel) -> Seq<EntryModel>
    decreases es.len(),
{
    if es.len() == 0 {
        seq![EntryModel { key, doc }]
    } else if es[0].key == key {
        seq![EntryModel { key, doc }] + es.drop_first()
    } else {
        seq![es[0]] + upsert_spec(es.drop_first(), key, doc)
    }
}

/// Remove the first entry under a fingerprint, if any.
pub open spec fn remove_key_spec(es: Seq<EntryModel>, key: u64) -> Seq<EntryModel>
    decreases es.len(),
{
    if es.len() == 0 {
        Seq::empty()
    } else if es[0].key == key {
        es.drop_first()
    } else {
        seq![es[0]] + remove_key_spec(es.drop_first(), key)
    }
}

/// Remove every copy of one point, keeping the order of the rest.
pub open spec fn strip_point_spec(ps: Seq<PointModel>, p: PointModel) -> Seq<PointModel>
    decreases ps.len(),
{
    if ps.len() == 0 {
        Seq::empty()
    } else {
        (if ps[0] == p { Seq::empty() } else { seq![ps[0]] }) + strip_point_spec(ps.drop_first(), p)
    }
}

// ---------------------------------------------------------------------------
// The per-record fold that build / add / remove follow
// ---------------------------------------------------------------------------

/// One record folded into the state: its point is appended and its
/// fingerprint takes the record's document (later records win).
pub open spec fn ingest_one(m: IndexModel, r: EmbeddedResource) -> IndexModel {
    IndexModel {
        points: m.points.push(rec_point(r)),
        entries: upsert_spec(m.entries, rec_fp(r), rec_doc(r)),
    }
}

/// A batch folded into the state, in iteration order.
pub open spec fn ingest(m: IndexModel, rs: Seq<EmbeddedResource>) -> IndexModel
    decreases rs.len(),
{
    if rs.len() == 0 {
        m
    } else {
        ingest_one(ingest(m, rs.drop_last()), rs.last())
    }
}

/// One record removed from the state: every stored copy of its point goes,
/// and its fingerprint's table entry goes.
pub open spec fn expel_one(m: IndexModel, r: EmbeddedResource) -> IndexModel {
    IndexModel {
        points: strip_point_spec(m.points, rec_point(r)),
        entries: remove_key_spec(m.entries, rec_fp(r)),
    }
}

/// A batch removed from the state, in iteration order.
pub open spec fn expel(m: IndexModel, rs: Seq<EmbeddedResource>) -> IndexModel
    decreases rs.len(),
{
    if rs.len() == 0 {
        m
    } else {
        expel_one(expel(m, rs.drop_last()), rs.last())
    }
}

// ---------------------------------------------------------------------------
// Exec table helpers
// ---------------------------------------------------------------------------

/// Position of the first entry under a fingerprint.
fn find_entry(entries: &Vec<Entry>, key: u64) -> (r: Option<usize>)
    ensures
        match r {
            Some(i) => i < entries@.len() && entries@[i as int]@.key == key
                && (forall|j: int| 0 <= j < i ==> ventries(entries@)[j].key != key),
            None => forall|j: int| 0 <= j < entries@.len() ==> ventries(entries@)[j].key != key,
        },
{
    let mut i: usize = 0;
    while i < entries.len()
        invariant
            i <= entries@.len(),
            forall|j: int| 0 <= j < i ==> ventries(entries@)[j].key != key,
        decreases entries@.len() - i,
    {
        if entries[i].key == key {
            return Some(i);
        }
        i = i + 1;
    }
    None
}

proof fn lemma_lookup_at(es: Seq<EntryModel>, key: u64, i: int)
    requires
        0 <= i < es.len(),
        es[i].key == key,
        forall|j: int| 0 <= j < i ==> es[j].key != key,
    ensures
        lookup_spec(es, key) == Some(es[i].doc),
    decreases i,
{
    if i > 0 {
        lemma_lookup_at(es.drop_first(), key, i - 1);
    }
}

proof fn lemma_lookup_absent(es: Seq<EntryModel>, key: u64)
    requires
        forall|j: int| 0 <= j < es.len() ==> es[j].key != key,
    ensures
        lookup_spec(es, key) is None,
    decreases es.len(),
{
    if es.len() > 0 {
        lemma_lookup_absent(es.drop_first(), key);
    }
}

proof fn lemma_upsert_at(es: Seq<EntryModel>, key: u64, doc: DocModel, i: int)
    requires
        0 <= i < es.len(),
        es[i].key == key,
        forall|j: int| 0 <= j < i ==> es[j].key != key,
    ensures
        upsert_spec(es, key, doc) =~= es.update(i, EntryModel { key, doc }),
    decreases i,
{
    if i > 0 {
        lemma_upsert_at(es.drop_first(), key, doc, i - 1);
        assert(upsert_spec(es, key, doc) =~= seq![es[0]] + upsert_spec(es.drop_first(), key, doc));
    }
}

pub proof fn lemma_upsert_absent(es: Seq<EntryModel>, key: u64, doc: DocModel)
    requires
        forall|j: int| 0 <= j < es.len() ==> es[j].key != key,
    ensures
        upsert_spec(es, key, doc) =~= es.push(EntryModel { key, doc }),
    decreases es.len(),
{
    if es.len() > 0 {
        lemma_upsert_absent(es.drop_first(), key, doc);
    }
}

proof fn lemma_remove_key_at(es: Seq<EntryModel>, key: u64, i: int)
    requires
        0 <= i < es.len(),
        es[i].key == key,
        forall|j: int| 0 <= j < i ==> es[j].key != key,
    ensures
        remove_key_spec(es, key) =~= es.remove(i),
    decreases i,
{
    if i > 0 {
        lemma_remove_key_at(es.drop_first(), key, i - 1);
    }
}

proof fn lemma_remove_key_absent(es: Seq<EntryModel>, key: u64)
    requires
        forall|j: int| 0 <= j < es.len() ==> es[j].key != key,
    ensures
        remove_key_spec(es, key) =~= es,
    decreases es.len(),
{
    if es.len() > 0 {
        lemma_remove_key_absent(es.drop_first(), key);
    }
}

/// Upsert keeps keys unique.
proof fn lemma_upsert_unique(es: Seq<EntryModel>, key: u64, doc: DocModel)
    requires
        keys_unique(es),
    ensures
        keys_unique(upsert_spec(es, key, doc)),
    decreases es.len(),
{
    let r = upsert_spec(es, key, doc);
    if es.len() == 0 {
    } else if es[0].key == key {
        assert(keys_unique(es.drop_first()));
        assert forall|i: int, j: int| 0 <= i < j < r.len() implies r[i].key != r[j].key by {
            if i == 0 {
                assert(r[j] == es[j]);
                assert(es[0].key != es[j].key);
            } else {
                assert(r[i] == es[i] && r[j] == es[j]);
            }
        }
    } else {
        assert(keys_unique(es.drop_first()));
        lemma_upsert_unique(es.drop_first(), key, doc);
        let r1 = upsert_spec(es.drop_first(), key, doc);
        assert forall|i: int, j: int| 0 <= i < j < r.len() implies r[i].key != r[j].key by {
            if i == 0 {
                assert(r[j] == r1[j - 1]);
                lemma_upsert_member(es.drop_first(), key, doc, r1[j - 1]);
                if r1[j - 1] == (EntryModel { key, doc }) {
                    assert(r[0].key != key);
                } else {
                    let i0 = choose|i0: int| 0 <= i0 < es.drop_first().len() && es.drop_first()[i0] == r1[j - 1];
                    assert(es[i0 + 1] == r1[j - 1]);
                    assert(es[0].key != es[i0 + 1].key);
                }
            } else {
                assert(r[i] == r1[i - 1] && r[j] == r1[j - 1]);
            }
        }
    }
}

/// Every entry after upsert is the new entry or an old entry under another key.
proof fn lemma_upsert_member(es: Seq<EntryModel>, key: u64, doc: DocModel, e: EntryModel)
    requires
        keys_unique(es),
        upsert_spec(es, key, doc).contains(e),
    ensures
        e == (EntryModel { key, doc }) || (es.contains(e) && e.key != key),
    decreases es.len(),
{
    let r = upsert_spec(es, key, doc);
    let i = choose|i: int| 0 <= i < r.len() && r[i] == e;
    if es.len() == 0 {
    } else if es[0].key == key {
        if i > 0 {
            assert(e == es[i]);
            assert(es[0].key != es[i].key);
        }
    } else {
        if i == 0 {
            assert(es[0] == e);
        } else {
            let r1 = upsert_spec(es.drop_first(), key, doc);
            assert(r1[i - 1] == e);
            assert(r1.contains(e));
            assert(keys_unique(es.drop_first()));
            lemma_upsert_member(es.drop_first(), key, doc, e);
            if e != (EntryModel { key, doc }) {
                let i0 = choose|i0: int| 0 <= i0 < es.drop_first().len() && es.drop_first()[i0] == e;
                assert(es[i0 + 1] == e);
            }
        }
    }
}

/// The new entry is present after upsert.
proof fn lemma_upsert_has_key(es: Seq<EntryModel>, key: u64, doc: DocModel)
    ensures
        upsert_spec(es, key, doc).contains(EntryModel { key, doc }),
    decreases es.len(),
{
    let r = upsert_spec(es, key, doc);
    if es.len() == 0 {
        assert(r[0] == (EntryModel { key, doc }));
    } else if es[0].key == key {
        assert(r[0] == (EntryModel { key, doc }));
    } else {
        lemma_upsert_has_key(es.drop_first(), key, doc);
        let r1 = upsert_spec(es.drop_first(), key, doc);
        let i = choose|i: int| 0 <= i < r1.len() && r1[i] == (EntryModel { key, doc });
        assert(r[i + 1] == (EntryModel { key, doc }));
    }
}

/// An old entry under another key survives upsert.
proof fn lemma_upsert_keeps(es: Seq<EntryModel>, key: u64, doc: DocModel, e: EntryModel)
    requires
        es.contains(e),
        e.key != key,
    ensures
        upsert_spec(es, key, doc).contains(e),
    decreases es.len(),
{
    let r = upsert_spec(es, key, doc);
    let i = choose|i: int| 0 <= i < es.len() && es[i] == e;
    if es[0].key == key {
        assert(i != 0);
        assert(r[i] == e);
    } else if i == 0 {
        assert(r[0] == e);
    } else {
        assert(es.drop_first()[i - 1] == e);
        lemma_upsert_keeps(es.drop_first(), key, doc, e);
        let r1 = upsert_spec(es.drop_first(), key, doc);
        let j = choose|j: int| 0 <= j < r1.len() && r1[j] == e;
        assert(r[j + 1] == e);
    }
}

// ---------------------------------------------------------------------------
// Mutation: add, build, remove, clear, size
// ---------------------------------------------------------------------------

fn add_record(ix: &mut Index, rec: &EmbeddedResource)
    requires
        old(ix).wf(),
    ensures
        final(ix)@ == ingest_one(old(ix)@, *rec),
        final(ix).wf(),
        covered_model(old(ix)@) ==> covered_model(final(ix)@),
{
    let vector = normalize(&rec.embeddings);
    let doc = Document {
        id: rec.id.clone(),
        title: rec.title.clone(),
        url: rec.url.clone(),
    };
    let key = fingerprint(&doc);
    proof {
        assert(doc@ == rec_doc(*rec));
        assert(key == rec_fp(*rec));
    }
    let ghost old_m = ix@;
    let point = Point { vector, key };
    proof {
        assert(point@ == rec_point(*rec));
    }
    ix.points.push(point);
    proof {
        assert(vpoints(ix.points@) =~= old_m.points.push(rec_point(*rec)));
    }
    let new_doc = Document { id: doc.id, title: doc.title, url: doc.url };
    match find_entry(&ix.entries, key) {
        Some(i) => {
            proof {
                lemma_upsert_at(ventries(ix.entries@), key, new_doc@, i as int);
            }
            ix.entries.remove(i);
            ix.entries.insert(i, Entry { key, doc: new_doc });
            proof {
                assert(ventries(ix.entries@) =~= upsert_spec(old_m.entries, rec_fp(*rec), rec_doc(*rec)));
            }
        },
        None => {
            proof {
                lemma_upsert_absent(ventries(ix.entries@), key, new_doc@);
            }
            ix.entries.push(Entry { key, doc: new_doc });
            proof {
                assert(ventries(ix.entries@) =~= upsert_spec(old_m.entries, rec_fp(*rec), rec_doc(*rec)));
            }
        },
    }
    proof {
        let new_m = ix@;
        assert(new_m.points == old_m.points.push(rec_point(*rec)));
        assert(new_m.entries == upsert_spec(old_m.entries, rec_fp(*rec), rec_doc(*rec)));
        assert(new_m == ingest_one(old_m, *rec));
        assert(rec_point(*rec).key == rec_fp(*rec));
        lemma_ingest_one_wf(old_m, rec_fp(*rec), rec_doc(*rec), rec_point(*rec), new_m);
    }
}

/// One ingested record — a point `p` pushed and its fingerprint's entry
/// upserted — preserves well-formedness and coverage.
pub(crate) proof fn lemma_ingest_one_wf(m: IndexModel, key: u64, doc: DocModel, p: PointModel, n: IndexModel)
    requires
        wf_model(m),
        p.key == key,
        p.vector.len() == DIM,
        n.points == m.points.push(p),
        n.entries == upsert_spec(m.entries, key, doc),
    ensures
        wf_model(n),
        covered_model(m) ==> covered_model(n),
{
    lemma_upsert_unique(m.entries, key, doc);
    assert(points_dim_ok(n.points)) by {
        assert(forall|j: int| 0 <= j < m.points.len() ==> n.points[j] == m.points[j]);
        assert(n.points[m.points.len() as int].vector.len() == DIM);
    }
    assert forall|i: int| 0 <= i < n.entries.len()
        implies has_point_with_key(n.points, (#[trigger] n.entries[i]).key)
    by {
        let e = n.entries[i];
        assert(n.entries.contains(e));
        lemma_upsert_member(m.entries, key, doc, e);
        if e == (EntryModel { key, doc }) {
            assert(n.points[m.points.len() as int].key == e.key);
        } else {
            assert(m.entries.contains(e));
            let i0 = choose|i0: int| 0 <= i0 < m.entries.len() && m.entries[i0] == e;
            assert(has_point_with_key(m.points, m.entries[i0].key));
            let j = choose|j: int| 0 <= j < m.points.len() && (#[trigger] m.points[j]).key == e.key;
            assert(n.points[j].key == e.key);
        }
    }
    if covered_model(m) {
        assert forall|j: int| 0 <= j < n.points.len()
            implies has_entry_with_key(n.entries, (#[trigger] n.points[j]).key)
        by {
            if j < m.points.len() && m.points[j].key != key {
                assert(has_entry_with_key(m.entries, m.points[j].key));
                let i0 = choose|i0: int| 0 <= i0 < m.entries.len()
                    && (#[trigger] m.entries[i0]).key == m.points[j].key;
                lemma_upsert_keeps(m.entries, key, doc, m.entries[i0]);
                assert(n.entries.contains(m.entries[i0]));
                let i1 = choose|i1: int| 0 <= i1 < n.entries.len() && n.entries[i1] == m.entries[i0];
                assert(n.entries[i1].key == n.points[j].key);
            } else {
                assert(n.points[j].key == key);
                lemma_upsert_has_key(m.entries, key, doc);
                let i1 = choose|i1: int| 0 <= i1 < n.entries.len()
                    && n.entries[i1] == (EntryModel { key, doc });
                assert(n.entries[i1].key == n.points[j].key);
            }
        }
    }
}

/// Add every record of the batch, in iteration order. A record whose
/// fingerprint is already present replaces that fingerprint's document and
/// contributes one more stored point.
pub fn add(index: &mut Index, resource: &Resource)
    requires
        old(index).wf(),
    ensures
        final(index)@ == ingest(old(index)@, resource.embeddings@),
        final(index).wf(),
        covered_model(old(index)@) ==> covered_model(final(index)@),
{
    let n = resource.embeddings.len();
    let mut i: usize = 0;
    while i < n
        invariant
            n == resource.embeddings@.len(),
            i <= n,
            index@ == ingest(old(index)@, resource.embeddings@.take(i as int)),
            index.wf(),
            covered_model(old(index)@) ==> covered_model(index@),
        decreases n - i,
    {
        add_record(index, &resource.embeddings[i]);
        proof {
            assert(resource.embeddings@.take(i + 1).drop_last() =~= resource.embeddings@.take(i as int));
            assert(resource.embeddings@.take(i + 1).last() == resource.embeddings@[i as int]);
        }
        i = i + 1;
    }
    proof {
        assert(resource.embeddings@.take(n as int) =~= resource.embeddings@);
    }
}

/// Reserved for inputs whose embedding cannot be normalized. Under the
/// padding rule normalization never fails, so `index` never returns it.
#[derive(Debug, PartialEq, Eq)]
pub enum IndexBuildError {
    Normalization,
}

/// Build an index from a batch, starting from the empty state.
pub fn index(resource: Resource) -> (r: Result<Index, IndexBuildError>)
    ensures
        r is Ok,
        r->Ok_0@ == ingest(empty_model(), resource.embeddings@),
        r->Ok_0.wf(),
        covered_model(r->Ok_0@),
{
    let mut ix = Index::new();
    crate::engine::add(&mut ix, &resource);
    Ok(ix)
}

fn remove_record(ix: &mut Index, rec: &EmbeddedResource)
    requires
        old(ix).wf(),
    ensures
        final(ix)@ == expel_one(old(ix)@, *rec),
        final(ix).wf(),
{
    let vector = normalize(&rec.embeddings);
    let doc = Document {
        id: rec.id.clone(),
        title: rec.title.clone(),
        url: rec.url.clone(),
    };
    let key = fingerprint(&doc);
    proof {
        assert(doc@ == rec_doc(*rec));
        assert(key == rec_fp(*rec));
    }
    let ghost old_m = ix@;
    let ghost target = rec_point(*rec);

    // strip every stored copy of (vector, key)
    let mut rest: Vec<Point> = Vec::new();
    core::mem::swap(&mut rest, &mut ix.points);
    let mut kept: Vec<Point> = Vec::new();
    while rest.len() > 0
        invariant
            strip_point_spec(old_m.points, target) =~= vpoints(kept@) + strip_point_spec(vpoints(rest@), target),
            points_dim_ok(vpoints(kept@)),
            points_dim_ok(vpoints(rest@)),
            vector@ == norm_spec(rec.embeddings@),
            key == rec_fp(*rec),
            target == rec_point(*rec),
        decreases rest@.len(),
    {
        let ghost rest_before = vpoints(rest@);
        let ghost kept_old = vpoints(kept@);
        let p = rest.remove(0);
        proof {
            assert(vpoints(rest@) =~= rest_before.drop_first());
            assert(p@ == rest_before[0]);
            assert(rest_before[0].vector.len() == DIM);
        }
        let keep = !point_matches(&p, &vector, key);
        if keep {
            kept.push(p);
            proof {
                assert(p@ != target);
                assert(vpoints(kept@) =~= kept_old.push(p@));
                assert(strip_point_spec(rest_before, target)
                    == seq![p@] + strip_point_spec(rest_before.drop_first(), target));
                assert(kept_old.push(p@) + strip_point_spec(rest_before.drop_first(), target)
                    =~= kept_old + strip_point_spec(rest_before, target));
            }
        } else {
            proof {
                assert(p@ == target);
                assert(strip_point_spec(rest_before, target)
                    =~= strip_point_spec(rest_before.drop_first(), target));
            }
        }
    }
    proof {
        assert(vpoints(rest@) =~= Seq::<PointModel>::empty());
        assert(vpoints(kept@) + strip_point_spec(vpoints(rest@), target) =~= vpoints(kept@));
        assert(vpoints(kept@) =~= strip_point_spec(old_m.points, target));
    }
    core::mem::swap(&mut kept, &mut ix.points);

    // remove the fingerprint's table entry, if present
    match find_entry(&ix.entries, key) {
        Some(i) => {
            proof {
                lemma_remove_key_at(ventries(ix.entries@), key, i as int);
            }
            ix.entries.remove(i);
            proof {
                assert(ventries(ix.entries@) =~= remove_key_spec(old_m.entries, rec_fp(*rec)));
            }
        },
        None => {
            proof {
                lemma_remove_key_absent(ventries(ix.entries@), key);
                assert(ventries(ix.entries@) =~= remove_key_spec(old_m.entries, rec_fp(*rec)));
            }
        },
    }
    proof {
        let new_m = ix@;
        assert(new_m.points == strip_point_spec(old_m.points, target));
        assert(new_m.entries == remove_key_spec(old_m.entries, rec_fp(*rec)));
        assert(new_m == expel_one(old_m, *rec));
        assert(target.key == rec_fp(*rec));
        lemma_expel_one_wf(old_m, rec_fp(*rec), target, new_m);
    }
}

/// One expelled record — every copy of a point `target` stripped and its
/// fingerprint's entry removed — preserves well-formedness.
proof fn lemma_expel_one_wf(m: IndexModel, key: u64, target: PointModel, n: IndexModel)
    requires
        wf_model(m),
        target.key == key,
        n.points == strip_point_spec(m.points, target),
        n.entries == remove_key_spec(m.entries, key),
    ensures
        wf_model(n),
{
    lemma_remove_key_unique(m.entries, key);
    assert(points_dim_ok(n.points)) by {
        assert forall|j: int| 0 <= j < n.points.len()
            implies (#[trigger] n.points[j].vector).len() == DIM
        by {
            assert(n.points.contains(n.points[j]));
            lemma_strip_from(m.points, target, n.points[j]);
            let j0 = choose|j0: int| 0 <= j0 < m.points.len() && m.points[j0] == n.points[j];
            assert(m.points[j0].vector.len() == DIM);
        }
    }
    assert forall|i: int| 0 <= i < n.entries.len()
        implies has_point_with_key(n.points, (#[trigger] n.entries[i]).key)
    by {
        let e = n.entries[i];
        assert(n.entries.contains(e));
        assert(remove_key_spec(m.entries, key).contains(e));
        lemma_remove_key_entries(m.entries, key, e);
        let i0 = choose|i0: int| 0 <= i0 < m.entries.len() && m.entries[i0] == e
            && (#[trigger] m.entries[i0]).key != key;
        assert(has_point_with_key(m.points, m.entries[i0].key));
        let j0 = choose|j0: int| 0 <= j0 < m.points.len() && (#[trigger] m.points[j0]).key == e.key;
        assert(m.points[j0].key != target.key);
        assert(m.points[j0] != target);
        assert(m.points.contains(m.points[j0]));
        lemma_strip_contains(m.points, target, m.points[j0]);
        assert(strip_point_spec(m.points, target).contains(m.points[j0]));
        let j = choose|j: int| 0 <= j < n.points.len() && #[trigger] n.points[j] == m.points[j0];
        assert(n.points[j].key == n.entries[i].key);
    }
    assert(wf_model(n));
}

/// An entry of the sequence after removal was in it before, under a key
/// other than the removed one (given unique keys).
proof fn lemma_remove_key_entries(es: Seq<EntryModel>, key: u64, e: EntryModel)
    requires
        keys_unique(es),
        remove_key_spec(es, key).contains(e),
    ensures
        exists|i0: int| 0 <= i0 < es.len() && es[i0] == e && (#[trigger] es[i0]).key != key,
    decreases es.len(),
{
    if es.len() > 0 {
        if es[0].key == key {
            let i = choose|i: int| 0 <= i < es.drop_first().len() && es.drop_first()[i] == e;
            assert(es[i + 1] == e);
            assert(es[i + 1].key != key);
        } else {
            let r = remove_key_spec(es, key);
            assert(r == seq![es[0]] + remove_key_spec(es.drop_first(), key));
            let i = choose|i: int| 0 <= i < r.len() && r[i] == e;
            if i == 0 {
                assert(es[0] == e && es[0].key != key);
            } else {
                assert(remove_key_spec(es.drop_first(), key).contains(e));
                assert(keys_unique(es.drop_first()));
                lemma_remove_key_entries(es.drop_first(), key, e);
                let i0 = choose|i0: int| 0 <= i0 < es.drop_first().len() && es.drop_first()[i0] == e
                    && (#[trigger] es.drop_first()[i0]).key != key;
                assert(es[i0 + 1] == e);
                assert(es[i0 + 1].key != key);
            }
        }
    }
}

proof fn lemma_remove_key_unique(es: Seq<EntryModel>, key: u64)
    requires
        keys_unique(es),
    ensures
        keys_unique(remove_key_spec(es, key)),
    decreases es.len(),
{
    if es.len() > 0 {
        assert(keys_unique(es.drop_first()));
        if es[0].key == key {
        } else {
            lemma_remove_key_unique(es.drop_first(), key);
            let r = remove_key_spec(es, key);
            assert(r == seq![es[0]] + remove_key_spec(es.drop_first(), key));
            assert forall|i: int, j: int| 0 <= i < j < r.len() implies r[i].key != r[j].key by {
                if i == 0 {
                    lemma_remove_key_entries(es.drop_first(), key, r[j]);
                }
            }
        }
    }
}

/// Every point of the stripped sequence comes from the source and differs
/// from the stripped point.
proof fn lemma_strip_from(ps: Seq<PointModel>, p: PointModel, x: PointModel)
    requires
        strip_point_spec(ps, p).contains(x),
    ensures
        ps.contains(x),
        x != p,
    decreases ps.len(),
{
    let s = strip_point_spec(ps, p);
    let i = choose|i: int| 0 <= i < s.len() && s[i] == x;
    if ps[0] == p {
        assert(s =~= strip_point_spec(ps.drop_first(), p));
        lemma_strip_from(ps.drop_first(), p, x);
        let i0 = choose|i0: int| 0 <= i0 < ps.drop_first().len() && ps.drop_first()[i0] == x;
        assert(ps[i0 + 1] == x);
    } else {
        if i == 0 {
            assert(ps[0] == x);
        } else {
            assert(strip_point_spec(ps.drop_first(), p)[i - 1] == x);
            assert(strip_point_spec(ps.drop_first(), p).contains(x));
            lemma_strip_from(ps.drop_first(), p, x);
            let i0 = choose|i0: int| 0 <= i0 < ps.drop_first().len() && ps.drop_first()[i0] == x;
            assert(ps[i0 + 1] == x);
        }
    }
}

/// A point other than the stripped one stays in the sequence.
proof fn lemma_strip_contains(ps: Seq<PointModel>, p: PointModel, x: PointModel)
    requires
        ps.contains(x),
        x != p,
    ensures
        strip_point_spec(ps, p).contains(x),
    decreases ps.len(),
{
    let i = choose|i: int| 0 <= i < ps.len() && ps[i] == x;
    if i == 0 {
        assert(strip_point_spec(ps, p)[0] == x);
    } else {
        assert(ps.drop_first()[i - 1] == x);
        lemma_strip_contains(ps.drop_first(), p, x);
        let s = strip_point_spec(ps, p);
        let s1 = strip_point_spec(ps.drop_first(), p);
        let j = choose|j: int| 0 <= j < s1.len() && s1[j] == x;
        if ps[0] == p {
            assert(s[j] == x);
        } else {
            assert(s[j + 1] == x);
        }
    }
}

/// Whether a stored point equals the given vector-and-key pair.
fn point_matches(p: &Point, vector: &Vec<u32>, key: u64) -> (r: bool)
    ensures
        r == (p@ == PointModel { vector: vector@, key }),
{
    if p.key != key {
        return false;
    }
    if p.vector.len() != vector.len() {
        proof {
            assert(p@.vector.len() != vector@.len());
        }
        return false;
    }
    let n = vector.len();
    let mut i: usize = 0;
    while i < n
        invariant
            n == vector@.len() == p.vector@.len(),
            i <= n,
            forall|j: int| 0 <= j < i ==> p.vector@[j] == vector@[j],
        decreases n - i,
    {
        if p.vector[i] != vector[i] {
            return false;
        }
        i = i + 1;
    }
    proof {
        assert(p.vector@ =~= vector@);
    }
    true
}

/// Remove every record of the batch, in iteration order: each record's
/// stored point copies go, and its fingerprint's table entry goes. Absent
/// fingerprints and absent points are no-ops.
pub fn remove(index: &mut Index, resource: &Resource)
    requires
        old(index).wf(),
    ensures
        final(index)@ == expel(old(index)@, resource.embeddings@),
        final(index).wf(),
{
    let n = resource.embeddings.len();
    let mut i: usize = 0;
    while i < n
        invariant
            n == resource.embeddings@.len(),
            i <= n,
            index@ == expel(old(index)@, resource.embeddings@.take(i as int)),
            index.wf(),
        decreases n - i,
    {
        remove_record(index, &resource.embeddings[i]);
        proof {
            assert(resource.embeddings@.take(i + 1).drop_last() =~= resource.embeddings@.take(i as int));
            assert(resource.embeddings@.take(i + 1).last() == resource.embeddings@[i as int]);
        }
        i = i + 1;
    }
    proof {
        assert(resource.embeddings@.take(n as int) =~= resource.embeddings@);
    }
}

/// Replace the stored state with empty instances.
pub fn clear(index: &mut Index)
    ensures
        final(index)@ == empty_model(),
        final(index).wf(),
        covered_model(final(index)@),
{
    index.points = Vec::new();
    index.entries = Vec::new();
    proof {
        assert(index@.points =~= Seq::<PointModel>::empty());
        assert(index@.entries =~= Seq::<EntryModel>::empty());
    }
}

/// The number of documents in the table (not the stored point count).
pub fn size(index: &Index) -> (r: usize)
    ensures
        r == index@.entries.len(),
{
    index.entries.len()
}


// ---------------------------------------------------------------------------
// Search: the verified join of a neighbour list against the document table
// ---------------------------------------------------------------------------

/// A query against the index. A closed tagged union, shaped to admit
/// further cases; embeddings are given as bit patterns, as everywhere.
pub enum Query {
    Embeddings(Vec<u32>),
}

/// The query's raw embedding.
pub open spec fn query_view(q: Query) -> Seq<u32> {
    match q {
        Query::Embeddings(v) => v@,
    }
}

/// The normalized vector the host must run the nearest-neighbour query on.
pub fn query_vector(q: &Query) -> (r: Vec<u32>)
    ensures
        r@ == norm_spec(query_view(*q)),
{
    match q {
        Query::Embeddings(v) => normalize(v),
    }
}

/// One neighbour as the host's tree reports it: the squared-distance bit
/// pattern and the stored point's fingerprint payload.
#[derive(Clone, Copy, Debug, PartialEq, Eq)]
pub struct Hit {
    pub distance: u32,
    pub item: u64,
}

/// One search result: the matched document and the squared Euclidean
/// distance of its stored point from the query, as the bit pattern the
/// host's tree reported. The host maps it to the similarity score
/// 1 / (1 + d^2), which orders results exactly opposite to the distance.
#[derive(Debug, PartialEq, Eq)]
pub struct SearchResult {
    pub document: Document,
    pub distance: u32,
}

/// The mathematical value of a search result.
pub struct SearchResultModel {
    pub doc: DocModel,
    pub distance: u32,
}

impl View for SearchResult {
    type V = SearchResultModel;

    open spec fn view(&self) -> SearchResultModel {
        SearchResultModel { doc: self.document@, distance: self.distance }
    }
}

pub open spec fn vresults(s: Seq<SearchResult>) -> Seq<SearchResultModel> {
    s.map_values(|r: SearchResult| r@)
}

/// The join: each neighbour's fingerprint is looked up in the table, in
/// order; found ones are emitted until `k` results stand, missing ones are
/// skipped silently.
pub open spec fn join_spec(es: Seq<EntryModel>, hits: Seq<Hit>, k: int) -> Seq<SearchResultModel>
    decreases hits.len(),
{
    if hits.len() == 0 || k <= 0 {
        Seq::empty()
    } else {
        match lookup_spec(es, hits[0].item) {
            Some(doc) => seq![SearchResultModel { doc, distance: hits[0].distance }]
                + join_spec(es, hits.drop_first(), k - 1),
            None => join_spec(es, hits.drop_first(), k),
        }
    }
}

proof fn lemma_join_snoc(es: Seq<EntryModel>, hits: Seq<Hit>, h: Hit, k: int)
    ensures
        join_spec(es, hits.push(h), k) == (if join_spec(es, hits, k).len() < k {
            match lookup_spec(es, h.item) {
                Some(doc) => join_spec(es, hits, k).push(SearchResultModel { doc, distance: h.distance }),
                None => join_spec(es, hits, k),
            }
        } else {
            join_spec(es, hits, k)
        }),
    decreases hits.len(),
{
    lemma_join_len(es, hits, k);
    if k <= 0 {
        assert(join_spec(es, hits.push(h), k) =~= join_spec(es, hits, k));
    } else if hits.len() == 0 {
        assert(hits.push(h)[0] == h);
        assert(hits.push(h).drop_first() =~= Seq::<Hit>::empty());
        assert(join_spec(es, Seq::<Hit>::empty(), k - 1) =~= Seq::<SearchResultModel>::empty());
        assert(join_spec(es, Seq::<Hit>::empty(), k) =~= Seq::<SearchResultModel>::empty());
        assert(join_spec(es, hits, k) =~= Seq::<SearchResultModel>::empty());
        match lookup_spec(es, h.item) {
            Some(doc) => {
                assert(join_spec(es, hits.push(h), k)
                    == seq![SearchResultModel { doc, distance: h.distance }]
                    + join_spec(es, hits.push(h).drop_first(), k - 1));
                assert(join_spec(es, hits.push(h), k)
                    =~= Seq::<SearchResultModel>::empty().push(SearchResultModel { doc, distance: h.distance }));
            },
            None => {
                assert(join_spec(es, hits.push(h), k) == join_spec(es, hits.push(h).drop_first(), k));
            },
        }
    } else {
        assert(hits.push(h)[0] == hits[0]);
        assert(hits.push(h).drop_first() =~= hits.drop_first().push(h));
        lemma_join_snoc(es, hits.drop_first(), h, k - 1);
        lemma_join_snoc(es, hits.drop_first(), h, k);
        lemma_join_len(es, hits.drop_first(), k - 1);
        match lookup_spec(es, hits[0].item) {
            Some(doc0) => {
                let head = seq![SearchResultModel { doc: doc0, distance: hits[0].distance }];
                match lookup_spec(es, h.item) {
                    Some(doc) => {
                        if join_spec(es, hits.drop_first(), k - 1).len() < k - 1 {
                            assert(head + join_spec(es, hits.drop_first(), k - 1).push(SearchResultModel { doc, distance: h.distance })
                                =~= (head + join_spec(es, hits.drop_first(), k - 1)).push(SearchResultModel { doc, distance: h.distance }));
                        }
                    },
                    None => {},
                }
            },
            None => {},
        }
    }
}

/// A search returns at most `k` results, and no more than one per neighbour.
pub proof fn lemma_join_len(es: Seq<EntryModel>, hits: Seq<Hit>, k: int)
    ensures
        join_spec(es, hits, k).len() <= hits.len(),
        k >= 0 ==> join_spec(es, hits, k).len() <= k,
    decreases hits.len(),
{
    if hits.len() == 0 || k <= 0 {
    } else {
        lemma_join_len(es, hits.drop_first(), k - 1);
        lemma_join_len(es, hits.drop_first(), k);
    }
}

/// A search against an empty table returns nothing; after `clear`, every
/// search returns the empty list.
pub proof fn lemma_join_empty_table(hits: Seq<Hit>, k: int)
    ensures
        join_spec(Seq::empty(), hits, k) == Seq::<SearchResultModel>::empty(),
    decreases hits.len(),
{
    if hits.len() == 0 || k <= 0 {
    } else {
        lemma_join_empty_table(hits.drop_first(), k);
        assert(lookup_spec(Seq::empty(), hits[0].item) is None);
    }
}

/// Perform the join for the host: look every neighbour's payload up in the
/// document table, in order, and emit the matched documents with their
/// distances until `k` results stand. Missing fingerprints are skipped.
pub fn search(index: &Index, k: usize, hits: &Vec<Hit>) -> (r: Vec<SearchResult>)
    ensures
        vresults(r@) == join_spec(index@.entries, hits@, k as int),
{
    let mut out: Vec<SearchResult> = Vec::new();
    let mut i: usize = 0;
    while i < hits.len()
        invariant
            i <= hits@.len(),
            out@.len() <= k,
            vresults(out@) == join_spec(index@.entries, hits@.take(i as int), k as int),
        decreases hits@.len() - i,
    {
        let h = hits[i];
        proof {
            lemma_join_snoc(index@.entries, hits@.take(i as int), h, k as int);
            assert(hits@.take(i + 1) =~= hits@.take(i as int).push(h));
        }
        if out.len() < k {
            let ghost out_old = vresults(out@);
            match lookup_document(index, h.item) {
                Some(doc) => {
                    let copy = doc.duplicate();
                    out.push(SearchResult { document: copy, distance: h.distance });
                    proof {
                        assert(vresults(out@) =~= out_old.push(SearchResultModel { doc: doc@, distance: h.distance }));
                    }
                },
                None => {},
            }
        }
        i = i + 1;
    }
    proof {
        assert(hits@.take(hits@.len() as int) =~= hits@);
    }
    out
}

/// Look a fingerprint up in the document table.
pub fn lookup_document<'a>(index: &'a Index, key: u64) -> (r: Option<&'a Document>)
    ensures
        match r {
            Some(doc) => lookup_spec(index@.entries, key) == Some(doc@),
            None => lookup_spec(index@.entries, key) is None,
        },
{
    match find_entry(&index.entries, key) {
        Some(i) => {
            proof {
                lemma_lookup_at(ventries(index.entries@), key, i as int);
            }
            Some(&index.entries[i].doc)
        },
        None => {
            proof {
                lemma_lookup_absent(ventries(index.entries@), key);
            }
            None
        },
    }
}

} // verus!
