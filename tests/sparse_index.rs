use std::sync::atomic::AtomicBool;

use rand::rngs::StdRng;
use rand::SeedableRng;

use segment::fixtures::fixture_open_sparse_index;
use segment::fixtures::fixture_sparse_index_ram;
use segment::fixtures::fixture_sparse_index_ram_from_iter;
use segment::fixtures::random_sparse_vector;
use segment::fixtures::vector_from_draws;
use segment::inverted_index::InvertedIndexRam;
use segment::inverted_index::PostingElement;
use segment::inverted_index::ProgressTicker;
use segment::search::select_top_k;
use segment::search::ScoredPoint;
use segment::sparse_vector::IndexError;
use segment::sparse_vector::SparseVector;
use segment::vector_index::SparseIndexConfig;
use segment::vector_index::SparseIndexType;
use segment::vector_index::SparseVectorIndex;

struct Counter(usize);

impl ProgressTicker for Counter {
    fn tick(&mut self) {
        self.0 += 1;
    }
}

fn sv(indices: Vec<u32>, weights: Vec<i16>) -> SparseVector {
    SparseVector::new(indices, weights).unwrap()
}

fn sp(idx: u32, score: i64) -> ScoredPoint {
    ScoredPoint { idx, score }
}

/// 100 vectors, each with at most 8 dimensions below 1000.
fn hundred_vectors() -> Vec<SparseVector> {
    let mut out = Vec::new();
    for p in 0..100u32 {
        let n = (p % 8) + 1;
        let mut indices = Vec::new();
        let mut weights = Vec::new();
        for k in 0..n {
            indices.push((p * 7 + k * 113) % 1000);
            weights.push(((p + k) % 17) as i16 - 5);
        }
        let mut pairs: Vec<(u32, i16)> = indices.into_iter().zip(weights).collect();
        pairs.sort();
        pairs.dedup_by_key(|e| e.0);
        out.push(sv(pairs.iter().map(|e| e.0).collect(), pairs.iter().map(|e| e.1).collect()));
    }
    out
}

#[test]
fn new_rejects_unsorted_indices() {
    assert_eq!(SparseVector::new(vec![3, 1], vec![1, 2]).unwrap_err(), IndexError::MalformedVector);
}

#[test]
fn new_rejects_duplicate_indices() {
    assert_eq!(SparseVector::new(vec![1, 1], vec![1, 2]).unwrap_err(), IndexError::MalformedVector);
}

#[test]
fn new_rejects_length_mismatch() {
    assert_eq!(SparseVector::new(vec![1, 2], vec![1]).unwrap_err(), IndexError::MalformedVector);
}

#[test]
fn new_accepts_empty_and_sorted() {
    let e = SparseVector::new(vec![], vec![]).unwrap();
    assert!(e.is_empty());
    let v = sv(vec![0, 5, 9], vec![1, -2, 3]);
    assert_eq!(v.get(5), Some(-2));
    assert_eq!(v.get(4), None);
}

#[test]
fn dot_product_exact() {
    let a = sv(vec![1, 3, 7], vec![2, -4, 5]);
    let b = sv(vec![3, 7, 8], vec![6, 10, 100]);
    assert_eq!(a.dot(&b), -24 + 50);
    assert_eq!(a.dot(&a), 4 + 16 + 25);
}

#[test]
fn dot_product_extreme_weights() {
    let a = sv(vec![0, 1], vec![i16::MIN, i16::MIN]);
    assert_eq!(a.dot(&a), 2 * (1i64 << 30));
}

#[test]
fn top_k_orders_by_score_then_offset() {
    let c = vec![sp(0, 5), sp(1, 9), sp(2, 5), sp(3, -1), sp(4, 9)];
    assert_eq!(select_top_k(&c, 3), vec![sp(1, 9), sp(4, 9), sp(0, 5)]);
    assert_eq!(select_top_k(&c, 10).len(), 5);
    assert_eq!(select_top_k(&c, 0), vec![]);
}

#[test]
fn build_lists_by_dimension() {
    let vs = vec![sv(vec![1, 3], vec![10, 30]), sv(vec![], vec![]), sv(vec![3], vec![7])];
    let stopped = AtomicBool::new(false);
    let ix = InvertedIndexRam::build(&vs, &stopped, &mut Counter(0)).unwrap();
    assert_eq!(ix.indexed_vector_count(), 3);
    assert_eq!(ix.posting_list(1), &[PostingElement { record_id: 0, weight: 10 }]);
    assert_eq!(
        ix.posting_list(3),
        &[PostingElement { record_id: 0, weight: 30 }, PostingElement { record_id: 2, weight: 7 }]
    );
    assert!(ix.posting_list(2).is_empty());
    assert!(ix.posting_list(1000).is_empty());
}

#[test]
fn build_ticks_once_per_batch() {
    let vs: Vec<SparseVector> = (0..130u32).map(|p| sv(vec![p], vec![1])).collect();
    let stopped = AtomicBool::new(false);
    let mut c = Counter(0);
    InvertedIndexRam::build(&vs, &stopped, &mut c).unwrap();
    assert_eq!(c.0, 3);
}

#[test]
fn build_counts_all_available_vectors() {
    let stopped = AtomicBool::new(false);
    let ix = fixture_sparse_index_ram_from_iter(hundred_vectors(), 10, &stopped, &mut Counter(0)).unwrap();
    assert_eq!(ix.indexed_vector_count(), ix.available_vector_count());
    assert_eq!(ix.indexed_vector_count(), 100);
}

#[test]
fn cancelled_build_changes_nothing() {
    let stopped = AtomicBool::new(false);
    let mut ix = fixture_open_sparse_index(0, 10, SparseIndexType::ImmutableRam);
    for (p, v) in hundred_vectors().into_iter().enumerate() {
        ix.insert_vector(p as u32, v).unwrap();
    }
    let before: Vec<Vec<PostingElement>> = ix.index.postings.clone();
    let stop = AtomicBool::new(true);
    assert_eq!(ix.build_index_with_progress(&stop, &mut Counter(0)), Err(IndexError::Cancelled));
    assert_eq!(ix.indexed_vector_count(), 0);
    assert_eq!(ix.index.postings, before);
    assert!(ix.uses_full_scan());
    ix.build_index_with_progress(&stopped, &mut Counter(0)).unwrap();
    assert_eq!(ix.indexed_vector_count(), 100);
}

#[test]
fn full_scan_and_index_agree_on_threshold() {
    let stopped = AtomicBool::new(false);
    let fast = fixture_sparse_index_ram_from_iter(hundred_vectors(), 50, &stopped, &mut Counter(0)).unwrap();
    let slow = fixture_sparse_index_ram_from_iter(hundred_vectors(), 200, &stopped, &mut Counter(0)).unwrap();
    assert!(!fast.uses_full_scan());
    assert!(slow.uses_full_scan());
    for q in hundred_vectors().iter().take(20) {
        for top in [1usize, 5, 100] {
            let a = fast.search(q, top, None, &stopped).unwrap();
            let b = slow.search(q, top, None, &stopped).unwrap();
            assert_eq!(a, b);
            assert_eq!(a, fast.search_full_scan(q, top, None, &stopped).unwrap());
            assert_eq!(a, slow.search_with_index(q, top, None));
        }
    }
}

#[test]
fn self_query_scores_squared_norm() {
    let stopped = AtomicBool::new(false);
    let vs = hundred_vectors();
    let ix = fixture_sparse_index_ram_from_iter(vs.clone(), 10, &stopped, &mut Counter(0)).unwrap();
    for (p, v) in vs.iter().enumerate() {
        let norm: i64 = v.weights.iter().map(|w| (*w as i64) * (*w as i64)).sum();
        let r = ix.search(v, 100, None, &stopped).unwrap();
        assert!(r.contains(&sp(p as u32, norm)));
    }
}

#[test]
fn empty_vector_is_never_found() {
    let stopped = AtomicBool::new(false);
    let vs = vec![sv(vec![1, 2], vec![3, 4]), sv(vec![], vec![]), sv(vec![2], vec![5])];
    let ix = fixture_sparse_index_ram_from_iter(vs, 0, &stopped, &mut Counter(0)).unwrap();
    assert_eq!(ix.available_vector_count(), 3);
    for d in 0..4 {
        assert!(ix.index.posting_list(d).iter().all(|e| e.record_id != 1));
    }
    let q = sv(vec![0, 1, 2, 3], vec![1, 1, 1, 1]);
    let r = ix.search(&q, 10, None, &stopped).unwrap();
    assert_eq!(r, vec![sp(0, 7), sp(2, 5)]);
    let r = ix.search_full_scan(&q, 10, None, &stopped).unwrap();
    assert_eq!(r, vec![sp(0, 7), sp(2, 5)]);
}

#[test]
fn search_excludes_points_without_shared_dimension() {
    let stopped = AtomicBool::new(false);
    let vs = vec![sv(vec![1], vec![3]), sv(vec![5], vec![-4]), sv(vec![1, 5], vec![-1, 2])];
    let ix = fixture_sparse_index_ram_from_iter(vs, 0, &stopped, &mut Counter(0)).unwrap();
    let q = sv(vec![5], vec![2]);
    assert_eq!(ix.search(&q, 10, None, &stopped).unwrap(), vec![sp(2, 4), sp(1, -8)]);
}

#[test]
fn upsert_moves_point_between_lists() {
    let stopped = AtomicBool::new(false);
    let config = SparseIndexConfig::new(0, SparseIndexType::MutableRam);
    let mut ix = SparseVectorIndex::open(config, vec![]);
    assert!(!ix.uses_full_scan());
    ix.insert_vector(0, sv(vec![1, 3], vec![10, 30])).unwrap();
    ix.insert_vector(1, sv(vec![2, 3], vec![5, 6])).unwrap();
    assert_eq!(ix.indexed_vector_count(), 2);
    ix.insert_vector(0, sv(vec![2, 3], vec![20, 31])).unwrap();
    assert!(ix.index.posting_list(1).is_empty());
    assert_eq!(
        ix.index.posting_list(2),
        &[PostingElement { record_id: 0, weight: 20 }, PostingElement { record_id: 1, weight: 5 }]
    );
    assert_eq!(
        ix.index.posting_list(3),
        &[PostingElement { record_id: 0, weight: 31 }, PostingElement { record_id: 1, weight: 6 }]
    );
    assert!(!ix.uses_full_scan());
    let q = sv(vec![1, 2], vec![1, 1]);
    assert_eq!(ix.search(&q, 10, None, &stopped).unwrap(), vec![sp(0, 20), sp(1, 5)]);
}

#[test]
fn immutable_index_marks_writes_pending() {
    let stopped = AtomicBool::new(false);
    let vs = vec![sv(vec![1], vec![1]), sv(vec![2], vec![2])];
    let mut ix = fixture_sparse_index_ram_from_iter(vs, 0, &stopped, &mut Counter(0)).unwrap();
    assert!(!ix.uses_full_scan());
    ix.insert_vector(2, sv(vec![1], vec![9])).unwrap();
    assert!(ix.uses_full_scan());
    assert_eq!(ix.indexed_vector_count(), 2);
    assert_eq!(ix.available_vector_count(), 3);
    let q = sv(vec![1], vec![1]);
    assert_eq!(ix.search(&q, 10, None, &stopped).unwrap(), vec![sp(2, 9), sp(0, 1)]);
    ix.build_index_with_progress(&stopped, &mut Counter(0)).unwrap();
    assert!(!ix.uses_full_scan());
    assert_eq!(ix.search(&q, 10, None, &stopped).unwrap(), vec![sp(2, 9), sp(0, 1)]);
}

#[test]
fn insert_past_end_is_rejected() {
    let mut ix = fixture_open_sparse_index(2, 0, SparseIndexType::MutableRam);
    assert_eq!(ix.insert_vector(5, sv(vec![1], vec![1])), Err(IndexError::OffsetOutOfRange));
    assert_eq!(ix.available_vector_count(), 2);
}

#[test]
fn open_fixture_holds_empty_points() {
    let ix = fixture_open_sparse_index(7, 3, SparseIndexType::ImmutableRam);
    assert_eq!(ix.available_vector_count(), 7);
    assert_eq!(ix.indexed_vector_count(), 0);
    assert!(ix.uses_full_scan());
}

#[test]
fn full_scan_search_can_be_cancelled() {
    let stop = AtomicBool::new(true);
    let ix = fixture_open_sparse_index(3, 10, SparseIndexType::ImmutableRam);
    let q = sv(vec![1], vec![1]);
    assert_eq!(ix.search(&q, 10, None, &stop), Err(IndexError::Cancelled));
}

#[test]
fn random_vectors_stay_in_bounds() {
    let mut rng = StdRng::seed_from_u64(42);
    let mut seen_above_zero = false;
    for _ in 0..50 {
        let v = random_sparse_vector(&mut rng, 30);
        assert!(!v.is_empty());
        assert!(v.indices.iter().all(|d| *d < 30));
        assert!(v.weights.iter().all(|w| (1..=100).contains(w)));
        assert!(v.indices.windows(2).all(|w| w[0] < w[1]));
        seen_above_zero |= v.indices.iter().any(|d| *d > 0);
    }
    assert!(seen_above_zero);
}

#[test]
fn random_fixture_is_fully_indexed() {
    let mut rng = StdRng::seed_from_u64(7);
    let stopped = AtomicBool::new(false);
    let ix = fixture_sparse_index_ram(&mut rng, 60, 50, 10, &stopped).unwrap();
    assert_eq!(ix.indexed_vector_count(), 60);
    assert_eq!(ix.available_vector_count(), 60);
    let q = ix.vectors[3].clone();
    let a = ix.search(&q, 5, None, &stopped).unwrap();
    let b = ix.search_full_scan(&q, 5, None, &stopped).unwrap();
    assert_eq!(a, b);
}

#[test]
fn filter_excludes_points_in_both_modes() {
    let stopped = AtomicBool::new(false);
    let vs = vec![sv(vec![1], vec![3]), sv(vec![1], vec![5]), sv(vec![1], vec![4])];
    let ix = fixture_sparse_index_ram_from_iter(vs, 0, &stopped, &mut Counter(0)).unwrap();
    let q = sv(vec![1], vec![1]);
    let allowed = vec![true, false];
    let expected = vec![sp(0, 3)];
    assert_eq!(ix.search(&q, 10, Some(&allowed), &stopped).unwrap(), expected);
    assert_eq!(ix.search_full_scan(&q, 10, Some(&allowed), &stopped).unwrap(), expected);
    assert_eq!(ix.search_with_index(&q, 10, Some(&allowed)), expected);
    assert_eq!(ix.search(&q, 2, None, &stopped).unwrap(), vec![sp(1, 5), sp(2, 4)]);
}

#[test]
fn delete_removes_point_from_lists_and_results() {
    let stopped = AtomicBool::new(false);
    let config = SparseIndexConfig::new(0, SparseIndexType::MutableRam);
    let mut ix = SparseVectorIndex::open(config, vec![]);
    ix.insert_vector(0, sv(vec![1, 3], vec![10, 30])).unwrap();
    ix.insert_vector(1, sv(vec![3], vec![6])).unwrap();
    ix.delete_vector(0).unwrap();
    assert!(ix.index.posting_list(1).is_empty());
    assert_eq!(ix.index.posting_list(3), &[PostingElement { record_id: 1, weight: 6 }]);
    assert_eq!(ix.available_vector_count(), 2);
    assert!(!ix.uses_full_scan());
    let q = sv(vec![1, 3], vec![1, 1]);
    assert_eq!(ix.search(&q, 10, None, &stopped).unwrap(), vec![sp(1, 6)]);
    assert_eq!(ix.delete_vector(2), Err(IndexError::OffsetOutOfRange));
}

#[test]
fn delete_on_immutable_index_falls_back_to_scan() {
    let stopped = AtomicBool::new(false);
    let vs = vec![sv(vec![1], vec![2]), sv(vec![1], vec![3])];
    let mut ix = fixture_sparse_index_ram_from_iter(vs, 0, &stopped, &mut Counter(0)).unwrap();
    ix.delete_vector(1).unwrap();
    assert!(ix.uses_full_scan());
    let q = sv(vec![1], vec![1]);
    assert_eq!(ix.search(&q, 10, None, &stopped).unwrap(), vec![sp(0, 2)]);
}

#[test]
fn opened_mutable_index_takes_upserts() {
    let stopped = AtomicBool::new(false);
    let mut ix = fixture_open_sparse_index(1, 0, SparseIndexType::MutableRam);
    assert!(!ix.uses_full_scan());
    assert_eq!(ix.indexed_vector_count(), 1);
    ix.insert_vector(0, sv(vec![1, 3], vec![1, 1])).unwrap();
    ix.insert_vector(0, sv(vec![2, 3], vec![2, 2])).unwrap();
    assert!(ix.index.posting_list(1).is_empty());
    assert_eq!(ix.index.posting_list(2), &[PostingElement { record_id: 0, weight: 2 }]);
    assert_eq!(ix.index.posting_list(3), &[PostingElement { record_id: 0, weight: 2 }]);
    ix.delete_vector(0).unwrap();
    assert!(ix.index.posting_list(2).is_empty());
    assert!(ix.index.posting_list(3).is_empty());
    let q = sv(vec![2], vec![1]);
    assert_eq!(ix.search(&q, 5, None, &stopped).unwrap(), vec![]);
}

#[test]
fn opened_index_of_empty_points_finds_nothing() {
    let stopped = AtomicBool::new(false);
    for t in [SparseIndexType::MutableRam, SparseIndexType::ImmutableRam] {
        let mut ix = fixture_open_sparse_index(4, 0, t);
        let q = sv(vec![0, 1, 2], vec![1, 1, 1]);
        assert_eq!(ix.search(&q, 10, None, &stopped).unwrap(), vec![]);
        ix.build_index_with_progress(&stopped, &mut Counter(0)).unwrap();
        assert_eq!(ix.indexed_vector_count(), 4);
        assert!(ix.index.postings.iter().all(|l| l.is_empty()));
        assert_eq!(ix.search(&q, 10, None, &stopped).unwrap(), vec![]);
    }
}

#[test]
fn empty_storage_never_cancels() {
    let stop = AtomicBool::new(true);
    let ix = fixture_sparse_index_ram_from_iter(vec![], 10, &stop, &mut Counter(0)).unwrap();
    assert_eq!(ix.indexed_vector_count(), 0);
    let q = sv(vec![1], vec![1]);
    assert_eq!(ix.search(&q, 3, None, &stop).unwrap(), vec![]);
}

#[test]
fn draws_give_exact_vector() {
    let v = vector_from_draws(&vec![3, 0, 5, 0], &vec![9, 41, 7, 99], 2, 4);
    assert_eq!(v.indices, vec![1, 3]);
    assert_eq!(v.weights, vec![42, 100]);
    let f = vector_from_draws(&vec![1, 2, 3], &vec![0, 0, 0], 2, 4);
    assert_eq!(f.indices, vec![2]);
    assert_eq!(f.weights, vec![5]);
}
