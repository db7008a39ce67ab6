use kiddo::float::distance::squared_euclidean;
use kiddo::float::kdtree::KdTree;
use voy::codec::{deserialize, serialize};
use voy::engine::{self, EmbeddedResource, Hit, Index, Query, Resource};

type Tree = KdTree<f32, u64, 768, 32, u16>;

fn bits(v: &[f32]) -> Vec<u32> {
    v.iter().map(|x| x.to_bits()).collect()
}

fn rec(id: &str, title: &str, url: &str, emb: &[f32]) -> EmbeddedResource {
    EmbeddedResource {
        id: id.to_string(),
        title: title.to_string(),
        url: url.to_string(),
        embeddings: bits(emb),
    }
}

fn to_array(v: &[u32]) -> [f32; 768] {
    let mut arr = [0.0f32; 768];
    for (i, w) in v.iter().enumerate() {
        arr[i] = f32::from_bits(*w);
    }
    arr
}

fn full_search(ix: &Index, query: &Query, k: usize) -> Vec<(String, f32)> {
    let mut tree = Tree::new();
    for p in ix.points() {
        tree.add(&to_array(&p.vector), p.key);
    }
    let qv = engine::query_vector(query);
    let neighbours = tree.nearest_n(&to_array(&qv), k, &squared_euclidean);
    let hits: Vec<Hit> = neighbours
        .iter()
        .map(|n| Hit {
            distance: n.distance.to_bits(),
            item: n.item,
        })
        .collect();
    engine::search(ix, k, &hits)
        .into_iter()
        .map(|r| {
            let score = 1.0f32 / (1.0f32 + f32::from_bits(r.distance));
            (r.document.id, score)
        })
        .collect()
}

#[test]
fn serialize_round_trip() {
    let ix = engine::index(Resource {
        embeddings: vec![
            rec("a", "Title A", "http://a", &[1.0, 0.0]),
            rec("b", "Title B", "http://b", &[0.0, 1.0]),
        ],
    })
    .unwrap();
    let blob = serialize(&ix);
    let back = deserialize(&blob).unwrap();
    assert_eq!(engine::size(&back), engine::size(&ix));
    let q = Query::Embeddings(bits(&[0.9, 0.1]));
    let before = full_search(&ix, &q, 5);
    let after = full_search(&back, &q, 5);
    assert_eq!(before, after);
}

#[test]
fn round_trip_is_stable() {
    let ix = engine::index(Resource {
        embeddings: vec![rec("only", "One", "u", &[0.25, -1.5])],
    })
    .unwrap();
    let blob = serialize(&ix);
    let back = deserialize(&blob).unwrap();
    assert_eq!(serialize(&back), blob);
}

#[test]
fn empty_index_round_trips() {
    let ix = Index::new();
    let back = deserialize(&serialize(&ix)).unwrap();
    assert_eq!(engine::size(&back), 0);
    assert!(back.points().is_empty());
}

#[test]
fn deserialize_rejects_garbage() {
    assert!(deserialize(&vec![]).is_err());
    assert!(deserialize(&"not a snapshot".chars().collect()).is_err());
    let mut blob = serialize(&Index::new());
    blob.pop();
    assert!(deserialize(&blob).is_err());
}

#[test]
fn deserialize_rejects_trailing_junk() {
    let mut blob = serialize(&Index::new());
    blob.push('x');
    assert!(deserialize(&blob).is_err());
}

#[test]
fn non_ascii_strings_round_trip() {
    let ix = engine::index(Resource {
        embeddings: vec![rec("clé", "Überschrift", "https://例え.jp/パス", &[0.5])],
    })
    .unwrap();
    let back = deserialize(&serialize(&ix)).unwrap();
    let q = Query::Embeddings(bits(&[0.5]));
    let out = full_search(&back, &q, 1);
    assert_eq!(out.len(), 1);
    assert_eq!(out[0].0, "clé");
    assert_eq!(out[0].1, 1.0);
}
