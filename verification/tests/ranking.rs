//! Direct exercises of candidate ranking: ascending-distance order and
//! truncation to the requested count.

use hnsw_index::select_top_k;
use hnsw_index::HnswSearchResult;

fn hit(id: i64, distance: f32) -> HnswSearchResult {
    HnswSearchResult {
        id,
        distance_bits: distance.to_bits(),
    }
}

#[test]
fn select_top_k_sorts_and_truncates() {
    let candidates = vec![hit(1, 0.9), hit(2, 0.1), hit(3, 0.5), hit(4, 0.3)];
    let r = select_top_k(candidates, 2);
    assert_eq!(r.len(), 2);
    assert_eq!(r[0], hit(2, 0.1));
    assert_eq!(r[1], hit(4, 0.3));
}

#[test]
fn select_top_k_keeps_all_when_k_large() {
    let candidates = vec![hit(1, 0.9), hit(2, 0.1), hit(3, 0.5)];
    let r = select_top_k(candidates, 10);
    assert_eq!(r.len(), 3);
    assert_eq!(r[0], hit(2, 0.1));
    assert_eq!(r[1], hit(3, 0.5));
    assert_eq!(r[2], hit(1, 0.9));
}

#[test]
fn select_top_k_zero_returns_nothing() {
    let candidates = vec![hit(1, 0.9), hit(2, 0.1)];
    let r = select_top_k(candidates, 0);
    assert_eq!(r.len(), 0);
}

#[test]
fn select_top_k_on_empty_input_returns_nothing() {
    let r = select_top_k(Vec::new(), 5);
    assert_eq!(r.len(), 0);
}

#[test]
fn select_top_k_keeps_ties() {
    let candidates = vec![hit(1, 0.5), hit(2, 0.5), hit(3, 0.2)];
    let r = select_top_k(candidates, 3);
    assert_eq!(r.len(), 3);
    assert_eq!(r[0], hit(3, 0.2));
    let tail_ids: Vec<i64> = r[1..].iter().map(|h| h.id).collect();
    assert!(tail_ids.contains(&1) && tail_ids.contains(&2));
    assert_eq!(f32::from_bits(r[1].distance_bits), 0.5);
    assert_eq!(f32::from_bits(r[2].distance_bits), 0.5);
}
