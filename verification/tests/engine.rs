use kiddo::float::distance::squared_euclidean;
use kiddo::float::kdtree::KdTree;
use voy::engine::{self, EmbeddedResource, Hit, Index, Query, Resource};
use voy::fingerprint::fingerprint;
use voy::Document;

type Tree = KdTree<f32, u64, 768, 32, u16>;

fn bits(v: &[f32]) -> Vec<u32> {
    v.iter().map(|x| x.to_bits()).collect()
}

fn rec(id: &str, title: &str, url: &str, emb: &[f32]) -> EmbeddedResource {
    EmbeddedResource {
        id: id.to_string(),
        title: title.to_string(),
        url: url.to_string(),
        embeddings: bits(emb),
    }
}

fn resource(recs: Vec<EmbeddedResource>) -> Resource {
    Resource { embeddings: recs }
}

fn clone_recs(recs: &[EmbeddedResource]) -> Vec<EmbeddedResource> {
    recs.iter()
        .map(|r| EmbeddedResource {
            id: r.id.clone(),
            title: r.title.clone(),
            url: r.url.clone(),
            embeddings: r.embeddings.clone(),
        })
        .collect()
}

fn to_array(v: &[u32]) -> [f32; 768] {
    let mut arr = [0.0f32; 768];
    for (i, w) in v.iter().enumerate() {
        arr[i] = f32::from_bits(*w);
    }
    arr
}

fn build_tree(ix: &Index) -> Tree {
    let mut tree = Tree::new();
    for p in ix.points() {
        tree.add(&to_array(&p.vector), p.key);
    }
    tree
}

/// The host-side search pipeline: normalize the query, ask the tree for the
/// k nearest neighbours, join through the engine, transform distances into
/// similarity scores.
fn full_search(ix: &Index, query: &Query, k: usize) -> Vec<(String, f32)> {
    let tree = build_tree(ix);
    let qv = engine::query_vector(query);
    let neighbours = tree.nearest_n(&to_array(&qv), k, &squared_euclidean);
    let hits: Vec<Hit> = neighbours
        .iter()
        .map(|n| Hit {
            distance: n.distance.to_bits(),
            item: n.item,
        })
        .collect();
    let results = engine::search(ix, k, &hits);
    results
        .into_iter()
        .map(|r| {
            let score = 1.0f32 / (1.0f32 + f32::from_bits(r.distance));
            (r.document.id, score)
        })
        .collect()
}

#[test]
fn empty_search() {
    let ix = engine::index(resource(vec![])).unwrap();
    assert_eq!(engine::size(&ix), 0);
    let out = full_search(&ix, &Query::Embeddings(bits(&[0.1, 0.2])), 5);
    assert!(out.is_empty());
}

#[test]
fn single_document() {
    let ix = engine::index(resource(vec![rec("a", "A", "u", &[1.0, 0.0])])).unwrap();
    let out = full_search(&ix, &Query::Embeddings(bits(&[1.0, 0.0])), 3);
    assert_eq!(out.len(), 1);
    assert_eq!(out[0].0, "a");
    assert_eq!(out[0].1, 1.0);
}

#[test]
fn padding_equivalence() {
    let ix = engine::index(resource(vec![
        rec("a", "A", "u", &[1.0]),
        rec("b", "B", "u", &[1.0, 0.0, 0.0]),
    ]))
    .unwrap();
    let out = full_search(&ix, &Query::Embeddings(bits(&[1.0])), 2);
    assert_eq!(out.len(), 2);
    assert_eq!(out[0].1, 1.0);
    assert_eq!(out[1].1, 1.0);
    let mut ids: Vec<String> = out.into_iter().map(|x| x.0).collect();
    ids.sort();
    assert_eq!(ids, vec!["a".to_string(), "b".to_string()]);
}

#[test]
fn ordering() {
    let ix = engine::index(resource(vec![
        rec("x", "X", "u", &[1.0, 0.0]),
        rec("y", "Y", "u", &[0.0, 1.0]),
        rec("z", "Z", "u", &[0.9, 0.1]),
    ]))
    .unwrap();
    let out = full_search(&ix, &Query::Embeddings(bits(&[1.0, 0.0])), 3);
    assert_eq!(out.len(), 3);
    assert_eq!(out[0].0, "x");
    assert_eq!(out[1].0, "z");
    assert_eq!(out[2].0, "y");
    assert!(out[0].1 >= out[1].1 && out[1].1 >= out[2].1);
    assert!(out.iter().all(|r| r.1 > 0.0 && r.1 <= 1.0));
}

#[test]
fn remove_then_search() {
    let mut ix = engine::index(resource(vec![
        rec("a", "A", "u", &[1.0, 0.0]),
        rec("b", "B", "u", &[0.0, 1.0]),
    ]))
    .unwrap();
    engine::remove(&mut ix, &resource(vec![rec("a", "A", "u", &[1.0, 0.0])]));
    assert_eq!(engine::size(&ix), 1);
    let out = full_search(&ix, &Query::Embeddings(bits(&[1.0, 0.0])), 3);
    assert_eq!(out.len(), 1);
    assert_eq!(out[0].0, "b");
}

#[test]
fn size_counts_unique_fingerprints() {
    let ix = engine::index(resource(vec![
        rec("a", "A", "u", &[1.0]),
        rec("a", "A", "u", &[2.0]),
        rec("b", "B", "u", &[3.0]),
    ]))
    .unwrap();
    // the two "a" records share a fingerprint: one table entry, two points
    assert_eq!(engine::size(&ix), 2);
    assert_eq!(ix.points().len(), 3);
}

#[test]
fn add_same_fingerprint_overwrites_document() {
    let mut ix = engine::index(resource(vec![rec("a", "A", "u", &[1.0, 0.0])])).unwrap();
    engine::add(&mut ix, &resource(vec![rec("a", "A", "u", &[1.0, 0.0])]));
    assert_eq!(engine::size(&ix), 1);
    assert_eq!(ix.points().len(), 2);
}

#[test]
fn build_equals_add_on_empty() {
    let recs = vec![rec("a", "A", "u", &[1.0, 0.5]), rec("b", "B", "v", &[0.3])];
    let built = engine::index(resource(clone_recs(&recs))).unwrap();
    let mut grown = Index::new();
    engine::add(&mut grown, &resource(recs));
    assert_eq!(engine::size(&built), engine::size(&grown));
    let q = Query::Embeddings(bits(&[1.0, 0.4]));
    assert_eq!(full_search(&built, &q, 5), full_search(&grown, &q, 5));
}

#[test]
fn remove_after_add_restores_index() {
    let mut ix = engine::index(resource(vec![rec("a", "A", "u", &[1.0, 0.0])])).unwrap();
    let batch = vec![rec("b", "B", "v", &[0.5, 0.5]), rec("c", "C", "w", &[0.1])];
    engine::add(&mut ix, &resource(clone_recs(&batch)));
    assert_eq!(engine::size(&ix), 3);
    engine::remove(&mut ix, &resource(batch));
    assert_eq!(engine::size(&ix), 1);
    assert_eq!(ix.points().len(), 1);
    let out = full_search(&ix, &Query::Embeddings(bits(&[1.0, 0.0])), 5);
    assert_eq!(out.len(), 1);
    assert_eq!(out[0].0, "a");
}

#[test]
fn clear_empties_everything() {
    let mut ix = engine::index(resource(vec![rec("a", "A", "u", &[1.0])])).unwrap();
    engine::clear(&mut ix);
    assert_eq!(engine::size(&ix), 0);
    assert!(ix.points().is_empty());
    let out = full_search(&ix, &Query::Embeddings(bits(&[1.0])), 5);
    assert!(out.is_empty());
}

#[test]
fn normalization_pads_and_truncates() {
    let short = engine::normalize(&bits(&[1.0, 2.0]));
    assert_eq!(short.len(), 768);
    assert_eq!(short[0], 1.0f32.to_bits());
    assert_eq!(short[1], 2.0f32.to_bits());
    assert!(short[2..].iter().all(|w| *w == 0));
    let long_input: Vec<u32> = (0..800u32).collect();
    let long = engine::normalize(&long_input);
    assert_eq!(long.len(), 768);
    assert_eq!(long[767], 767);
}

#[test]
fn fingerprint_depends_on_all_fields() {
    let d = Document {
        id: "a".to_string(),
        title: "T".to_string(),
        url: "u".to_string(),
    };
    let same = Document {
        id: "a".to_string(),
        title: "T".to_string(),
        url: "u".to_string(),
    };
    assert_eq!(fingerprint(&d), fingerprint(&same));
    let other_id = Document {
        id: "b".to_string(),
        title: "T".to_string(),
        url: "u".to_string(),
    };
    let other_title = Document {
        id: "a".to_string(),
        title: "t".to_string(),
        url: "u".to_string(),
    };
    let other_url = Document {
        id: "a".to_string(),
        title: "T".to_string(),
        url: "v".to_string(),
    };
    assert_ne!(fingerprint(&d), fingerprint(&other_id));
    assert_ne!(fingerprint(&d), fingerprint(&other_title));
    assert_ne!(fingerprint(&d), fingerprint(&other_url));
    // field framing: shifting a character across the field boundary changes the key
    let ab_c = Document {
        id: "ab".to_string(),
        title: "c".to_string(),
        url: "u".to_string(),
    };
    let a_bc = Document {
        id: "a".to_string(),
        title: "bc".to_string(),
        url: "u".to_string(),
    };
    assert_ne!(fingerprint(&ab_c), fingerprint(&a_bc));
}

#[test]
fn search_caps_results_at_k() {
    let ix = engine::index(resource(vec![
        rec("a", "A", "u", &[1.0, 0.0]),
        rec("b", "B", "u", &[0.0, 1.0]),
        rec("c", "C", "u", &[0.5, 0.5]),
    ]))
    .unwrap();
    let out = full_search(&ix, &Query::Embeddings(bits(&[1.0, 0.0])), 2);
    assert_eq!(out.len(), 2);
}

#[test]
fn index_build_never_fails() {
    let r = engine::index(resource(vec![rec("a", "A", "u", &[])]));
    assert!(r.is_ok());
}
