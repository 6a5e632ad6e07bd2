//! End-to-end exercises of the index store with a real
//! hierarchical-graph primitive behind it.

use hnsw_index::AnnGraph;
use hnsw_index::Candidate;
use hnsw_index::EmbeddingPoint;
use hnsw_index::HnswError;
use hnsw_index::HnswIndexStore;
use hnsw_index::HnswSearchResult;

/// Cosine distance `1 - cos(a, b)`, the maximum distance `1.0` whenever
/// either vector has zero norm, clamped at zero so rounding can never
/// produce a negative distance.
fn cosine_distance(a: &[f32], b: &[f32]) -> f32 {
    let dot: f32 = a.iter().zip(b.iter()).map(|(x, y)| x * y).sum();
    let norm_a: f32 = a.iter().map(|x| x * x).sum::<f32>().sqrt();
    let norm_b: f32 = b.iter().map(|x| x * x).sum::<f32>().sqrt();
    if norm_a == 0.0 || norm_b == 0.0 {
        return 1.0;
    }
    (1.0 - dot / (norm_a * norm_b)).max(0.0)
}

/// Embedding under the cosine metric.
#[derive(Clone)]
struct FloatPoint {
    vector: Vec<f32>,
}

impl instant_distance::Point for FloatPoint {
    fn distance(&self, other: &Self) -> f32 {
        cosine_distance(&self.vector, &other.vector)
    }
}

/// The graph primitive for the store, backed by `instant_distance`. The
/// graph's values are positions into the point list it was built over.
struct CosineGraph {
    map: instant_distance::HnswMap<FloatPoint, usize>,
    vectors: Vec<Vec<f32>>,
}

fn from_bits(words: &[u32]) -> Vec<f32> {
    words.iter().map(|w| f32::from_bits(*w)).collect()
}

impl AnnGraph for CosineGraph {
    fn build_graph(points: &Vec<EmbeddingPoint>) -> CosineGraph {
        let vectors: Vec<Vec<f32>> = points.iter().map(|p| from_bits(&p.embedding)).collect();
        let floats: Vec<FloatPoint> = vectors
            .iter()
            .map(|v| FloatPoint { vector: v.clone() })
            .collect();
        let positions: Vec<usize> = (0..points.len()).collect();
        CosineGraph {
            map: instant_distance::Builder::default().build(floats, positions),
            vectors,
        }
    }

    fn traverse(&self, query: &Vec<u32>) -> Vec<Candidate> {
        let q = FloatPoint {
            vector: from_bits(query),
        };
        let mut search = instant_distance::Search::default();
        self.map
            .search(&q, &mut search)
            .map(|item| Candidate {
                position: *item.value,
                distance_bits: item.distance.max(0.0).to_bits(),
            })
            .collect()
    }

    fn distance_to(&self, query: &Vec<u32>, position: usize) -> u32 {
        match self.vectors.get(position) {
            Some(v) => cosine_distance(&from_bits(query), v).to_bits(),
            None => 1.0f32.to_bits(),
        }
    }
}

fn bits(v: &[f32]) -> Vec<u32> {
    v.iter().map(|x| x.to_bits()).collect()
}

fn batch(pts: &[(i64, &[f32])]) -> Vec<(i64, Vec<u32>)> {
    pts.iter().map(|(id, v)| (*id, bits(v))).collect()
}

fn new_store() -> HnswIndexStore<CosineGraph> {
    HnswIndexStore::new()
}

fn dist_of(r: &HnswSearchResult) -> f32 {
    f32::from_bits(r.distance_bits)
}

#[test]
fn build_nonempty_loads_store() {
    let mut st = new_store();
    assert!(!st.is_hnsw_index_loaded());
    let r = st.build_hnsw_index(batch(&[
        (1, &[1.0, 0.0]),
        (2, &[0.0, 1.0]),
        (3, &[1.0, 1.0]),
    ]));
    assert!(r.is_ok());
    assert!(st.is_hnsw_index_loaded());
}

#[test]
fn build_empty_is_noop_on_empty_store() {
    let mut st = new_store();
    let r = st.build_hnsw_index(Vec::new());
    assert!(r.is_ok());
    assert!(!st.is_hnsw_index_loaded());
}

#[test]
fn build_empty_is_noop_on_loaded_store() {
    let mut st = new_store();
    st.build_hnsw_index(batch(&[(1, &[1.0, 0.0]), (2, &[0.0, 1.0])]))
        .unwrap();
    let r = st.build_hnsw_index(Vec::new());
    assert!(r.is_ok());
    assert!(st.is_hnsw_index_loaded());
    let hits = st.search_hnsw(bits(&[1.0, 0.0]), 2).unwrap();
    assert_eq!(hits.len(), 2);
}

#[test]
fn search_before_build_fails() {
    let st = new_store();
    let r = st.search_hnsw(bits(&[1.0, 0.0]), 3);
    assert_eq!(r.unwrap_err(), HnswError::NotInitialized);
}

#[test]
fn search_after_clear_fails() {
    let mut st = new_store();
    st.build_hnsw_index(batch(&[(1, &[1.0, 0.0]), (2, &[0.0, 1.0])]))
        .unwrap();
    st.clear_hnsw_index();
    let r = st.search_hnsw(bits(&[1.0, 0.0]), 3);
    assert_eq!(r.unwrap_err(), HnswError::NotInitialized);
}

#[test]
fn search_returns_min_k_results_sorted() {
    let mut st = new_store();
    st.build_hnsw_index(batch(&[
        (1, &[1.0, 0.0, 0.0]),
        (2, &[0.0, 1.0, 0.0]),
        (3, &[0.0, 0.0, 1.0]),
        (4, &[1.0, 1.0, 0.0]),
        (5, &[1.0, 0.0, 1.0]),
    ]))
    .unwrap();

    let three = st.search_hnsw(bits(&[1.0, 0.0, 0.0]), 3).unwrap();
    assert_eq!(three.len(), 3);
    for w in three.windows(2) {
        assert!(dist_of(&w[0]) <= dist_of(&w[1]));
    }

    let all = st.search_hnsw(bits(&[1.0, 0.0, 0.0]), 10).unwrap();
    assert_eq!(all.len(), 5);
    for w in all.windows(2) {
        assert!(dist_of(&w[0]) <= dist_of(&w[1]));
    }
}

#[test]
fn self_similarity_ranks_indexed_point() {
    let mut st = new_store();
    st.build_hnsw_index(batch(&[
        (10, &[1.0, 0.0, 0.0]),
        (20, &[0.0, 1.0, 0.0]),
        (30, &[0.0, 0.0, 1.0]),
        (40, &[1.0, 1.0, 1.0]),
    ]))
    .unwrap();
    let hits = st.search_hnsw(bits(&[0.0, 1.0, 0.0]), 4).unwrap();
    let own = hits
        .iter()
        .find(|h| h.id == 20)
        .expect("the indexed point's own vector must rank among the hits");
    assert!(dist_of(own) < 1e-3);
}

#[test]
fn zero_vector_query_max_distance() {
    let mut st = new_store();
    st.build_hnsw_index(batch(&[
        (1, &[1.0, 0.0]),
        (2, &[0.0, 1.0]),
        (3, &[0.0, 0.0]),
    ]))
    .unwrap();
    let hits = st.search_hnsw(bits(&[0.0, 0.0]), 3).unwrap();
    assert_eq!(hits.len(), 3);
    for h in &hits {
        assert_eq!(dist_of(h), 1.0);
    }
}

#[test]
fn clear_twice_idempotent() {
    let mut st = new_store();
    st.build_hnsw_index(batch(&[(1, &[1.0, 0.0])])).unwrap();
    st.clear_hnsw_index();
    assert!(!st.is_hnsw_index_loaded());
    st.clear_hnsw_index();
    assert!(!st.is_hnsw_index_loaded());
}

#[test]
fn end_to_end_example() {
    let mut st = new_store();
    st.build_hnsw_index(batch(&[
        (1, &[1.0, 0.0]),
        (2, &[0.0, 1.0]),
        (3, &[1.0, 1.0]),
    ]))
    .unwrap();
    let hits = st.search_hnsw(bits(&[1.0, 0.0]), 2).unwrap();
    assert_eq!(hits.len(), 2);
    assert_eq!(hits[0].id, 1);
    assert_eq!(dist_of(&hits[0]), 0.0);
    assert!(hits[1].id == 2 || hits[1].id == 3);
    assert!(dist_of(&hits[1]) > 0.0);
}

#[test]
fn build_ragged_batch_rejected() {
    let mut st = new_store();
    let r = st.build_hnsw_index(batch(&[(1, &[1.0, 0.0]), (2, &[1.0, 0.0, 0.0])]));
    assert_eq!(r.unwrap_err(), HnswError::InvalidInput);
    assert!(!st.is_hnsw_index_loaded());
}

#[test]
fn search_wrong_dimension_rejected() {
    let mut st = new_store();
    st.build_hnsw_index(batch(&[(1, &[1.0, 0.0]), (2, &[0.0, 1.0])]))
        .unwrap();
    let r = st.search_hnsw(bits(&[1.0, 0.0, 0.0]), 2);
    assert_eq!(r.unwrap_err(), HnswError::InvalidInput);
    assert!(st.is_hnsw_index_loaded());
}

#[test]
fn rebuild_replaces_index() {
    let mut st = new_store();
    st.build_hnsw_index(batch(&[(1, &[1.0, 0.0]), (2, &[0.0, 1.0])]))
        .unwrap();
    st.build_hnsw_index(batch(&[(7, &[1.0, 0.0]), (8, &[0.0, 1.0]), (9, &[1.0, 1.0])]))
        .unwrap();
    let hits = st.search_hnsw(bits(&[1.0, 0.0]), 10).unwrap();
    assert_eq!(hits.len(), 3);
    for h in &hits {
        assert!(h.id == 7 || h.id == 8 || h.id == 9);
    }
}

#[test]
fn duplicate_ids_are_not_deduplicated() {
    let mut st = new_store();
    st.build_hnsw_index(batch(&[(5, &[1.0, 0.0]), (5, &[0.0, 1.0])]))
        .unwrap();
    let hits = st.search_hnsw(bits(&[1.0, 0.0]), 10).unwrap();
    assert_eq!(hits.len(), 2);
    assert!(hits.iter().all(|h| h.id == 5));
}
