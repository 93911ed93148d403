use vstd::prelude::*;
use std::sync::atomic::AtomicBool;
use rand::Rng;
use rand::rngs::StdRng;

use crate::inverted_index::NoProgress;
use crate::inverted_index::ProgressTicker;
use crate::inverted_index::all_wf;
use crate::inverted_index::max_points;
use crate::sparse_vector::IndexError;
use crate::sparse_vector::SparseVector;
use crate::vector_index::SparseIndexConfig;
use crate::vector_index::SparseIndexType;
use crate::vector_index::SparseVectorIndex;

verus! {

#[verifier::external_type_specification]
#[verifier::external_body]
pub struct ExStdRng(StdRng);

/// Relies on rand's `Rng::gen_range` over `0..bound`: a value below `bound`
/// (the range must not be empty).
#[verifier::external_body]
fn random_below(rng: &mut StdRng, bound: u32) -> (r: u32)
    requires
        bound > 0,
    ensures
        r < bound,
{
    rng.gen_range(0..bound)
}

/// Largest weight that `random_sparse_vector` draws.
pub const MAX_RANDOM_WEIGHT: u32 = 100;

/// The dimensions below `n` whose presence draw is zero, ascending.
pub open spec fn picked_dims(picks: Seq<u32>, n: int) -> Seq<u32>
    decreases n,
{
    if n <= 0 {
        Seq::empty()
    } else if picks[n - 1] == 0 {
        picked_dims(picks, n - 1).push((n - 1) as u32)
    } else {
        picked_dims(picks, n - 1)
    }
}

/// The weights of the dimensions that `picked_dims` keeps: the weight draw
/// plus one.
pub open spec fn picked_weights(picks: Seq<u32>, draws: Seq<u32>, n: int) -> Seq<i16>
    decreases n,
{
    if n <= 0 {
        Seq::empty()
    } else if picks[n - 1] == 0 {
        picked_weights(picks, draws, n - 1).push((draws[n - 1] + 1) as i16)
    } else {
        picked_weights(picks, draws, n - 1)
    }
}

/// The vector that a set of draws describes: dimension `d` is present where
/// `picks[d]` is zero, with weight `draws[d] + 1`; where no dimension is
/// present, the vector holds `fallback_dim` with weight `fallback_draw + 1`.
pub fn vector_from_draws(picks: &Vec<u32>, draws: &Vec<u32>, fallback_dim: u32, fallback_draw: u32) -> (r: SparseVector)
    requires
        picks@.len() == draws@.len(),
        picks@.len() <= max_points(),
        forall|d: int| 0 <= d < draws@.len() ==> #[trigger] draws@[d] < MAX_RANDOM_WEIGHT,
        fallback_draw < MAX_RANDOM_WEIGHT,
    ensures
        r.wf(),
        picked_dims(picks@, picks@.len() as int).len() > 0 ==> {
            &&& r.indices@ == picked_dims(picks@, picks@.len() as int)
            &&& r.weights@ == picked_weights(picks@, draws@, picks@.len() as int)
        },
        picked_dims(picks@, picks@.len() as int).len() == 0 ==> {
            &&& r.indices@ == seq![fallback_dim]
            &&& r.weights@ == seq![(fallback_draw + 1) as i16]
        },
{
    let mut indices: Vec<u32> = Vec::new();
    let mut weights: Vec<i16> = Vec::new();
    let mut d: usize = 0;
    while d < picks.len()
        invariant
            picks@.len() == draws@.len(),
            picks@.len() <= max_points(),
            forall|k: int| 0 <= k < draws@.len() ==> #[trigger] draws@[k] < MAX_RANDOM_WEIGHT,
            d <= picks@.len(),
            indices@ == picked_dims(picks@, d as int),
            weights@ == picked_weights(picks@, draws@, d as int),
            indices@.len() == weights@.len(),
            crate::sparse_vector::strictly_ascending(indices@),
            forall|i: int| 0 <= i < indices@.len() ==> (indices@[i] as int) < d,
        decreases picks@.len() - d,
    {
        if picks[d] == 0 {
            indices.push(d as u32);
            weights.push((draws[d] + 1) as i16);
        }
        d = d + 1;
    }
    if indices.len() == 0 {
        indices.push(fallback_dim);
        weights.push((fallback_draw + 1) as i16);
        assert(indices@ =~= seq![fallback_dim]);
        assert(weights@ =~= seq![(fallback_draw + 1) as i16]);
    }
    SparseVector { indices, weights }
}

/// A random vector over dimensions `0..max_dim`: each dimension is present with
/// odds of one in ten, with a weight in `1..=100`; where none is drawn, one
/// random dimension is taken so that the vector is never empty.
pub fn random_sparse_vector(rng: &mut StdRng, max_dim: u32) -> (r: SparseVector)
    requires
        max_dim > 0,
    ensures
        r.wf(),
        r.len() > 0,
        forall|i: int| 0 <= i < r.len() ==> r.indices@[i] < max_dim,
        forall|i: int| 0 <= i < r.len() ==> 1 <= #[trigger] r.weights@[i] <= MAX_RANDOM_WEIGHT,
{
    let mut picks: Vec<u32> = Vec::new();
    let mut draws: Vec<u32> = Vec::new();
    let mut d: u32 = 0;
    while d < max_dim
        invariant
            d <= max_dim,
            picks@.len() == d,
            draws@.len() == d,
            forall|k: int| 0 <= k < d ==> #[trigger] draws@[k] < MAX_RANDOM_WEIGHT,
        decreases max_dim - d,
    {
        picks.push(random_below(rng, 10));
        draws.push(random_below(rng, MAX_RANDOM_WEIGHT));
        d = d + 1;
    }
    let fallback_dim = random_below(rng, max_dim);
    let fallback_draw = random_below(rng, MAX_RANDOM_WEIGHT);
    let r = vector_from_draws(&picks, &draws, fallback_dim, fallback_draw);
    proof {
        lemma_picked_bounds(picks@, draws@, max_dim as int);
    }
    r
}

proof fn lemma_picked_bounds(picks: Seq<u32>, draws: Seq<u32>, n: int)
    requires
        0 <= n <= picks.len(),
        picks.len() == draws.len(),
        n <= max_points(),
        forall|k: int| 0 <= k < draws.len() ==> #[trigger] draws[k] < MAX_RANDOM_WEIGHT,
    ensures
        picked_dims(picks, n).len() == picked_weights(picks, draws, n).len(),
        forall|i: int| 0 <= i < picked_dims(picks, n).len() ==> (#[trigger] picked_dims(picks, n)[i] as int) < n,
        forall|i: int| 0 <= i < picked_weights(picks, draws, n).len()
            ==> 1 <= #[trigger] picked_weights(picks, draws, n)[i] <= MAX_RANDOM_WEIGHT,
    decreases n,
{
    if n > 0 {
        lemma_picked_bounds(picks, draws, n - 1);
        let a = picked_dims(picks, n - 1);
        let b = picked_weights(picks, draws, n - 1);
        assert forall|i: int| 0 <= i < picked_dims(picks, n).len() implies (#[trigger] picked_dims(picks, n)[i] as int) < n by {
            if i < a.len() {
                assert(picked_dims(picks, n)[i] == a[i]);
            }
        }
        assert forall|i: int| 0 <= i < picked_weights(picks, draws, n).len()
            implies 1 <= #[trigger] picked_weights(picks, draws, n)[i] <= MAX_RANDOM_WEIGHT by {
            if i < b.len() {
                assert(picked_weights(picks, draws, n)[i] == b[i]);
            }
        }
    }
}

/// A vector index over `num_vectors` empty points. A mutable index holds them
/// at once; any other starts unbuilt. Either way no posting list has an entry.
pub fn fixture_open_sparse_index(
    num_vectors: usize,
    full_scan_threshold: usize,
    index_type: SparseIndexType,
) -> (r: SparseVectorIndex)
    requires
        num_vectors <= max_points(),
    ensures
        r.wf(),
        r.vectors@.len() == num_vectors,
        forall|i: int| 0 <= i < num_vectors ==> #[trigger] r.vectors@[i].len() == 0,
        r.config.full_scan_threshold == full_scan_threshold,
        r.config.index_type == index_type,
        forall|d: int| 0 <= d < r.index.view_postings().len() ==> #[trigger] r.index.view_postings()[d].len() == 0,
        index_type == SparseIndexType::MutableRam ==> !r.stale && r.index.vector_count == num_vectors,
        index_type != SparseIndexType::MutableRam ==> {
            &&& r.index.vector_count == 0
            &&& r.index.view_postings().len() == 0
            &&& r.stale == (num_vectors > 0)
        },
{
    let mut vectors: Vec<SparseVector> = Vec::new();
    let mut i: usize = 0;
    while i < num_vectors
        invariant
            i <= num_vectors,
            vectors@.len() == i,
            all_wf(vectors@),
            forall|j: int| 0 <= j < i ==> #[trigger] vectors@[j].len() == 0,
        decreases num_vectors - i,
    {
        vectors.push(SparseVector::empty());
        i = i + 1;
    }
    let config = SparseIndexConfig::new(full_scan_threshold, index_type);
    let r = SparseVectorIndex::open(config, vectors);
    proof {
        let ps = r.index.view_postings();
        assert forall|d: int| 0 <= d < ps.len() implies #[trigger] ps[d].len() == 0 by {
            if ps[d].len() > 0 && matches!(index_type, SparseIndexType::MutableRam) {
                let e = ps[d][0];
                assert(crate::inverted_index::covers(r.vectors@, r.vectors@.len() as int, 0, e.record_id as int, d as u32));
                assert(r.vectors@[e.record_id as int].len() == 0);
            }
        }
    }
    r
}

/// A built index of type `ImmutableRam` over `vectors`, point `i` being
/// `vectors[i]`, written into a storage of empty points and then built.
pub fn fixture_sparse_index_ram_from_iter<P: ProgressTicker>(
    vectors: Vec<SparseVector>,
    full_scan_threshold: usize,
    stopped: &AtomicBool,
    progress: &mut P,
) -> (r: Result<SparseVectorIndex, IndexError>)
    requires
        all_wf(vectors@),
        vectors@.len() <= max_points(),
    ensures
        r matches Ok(ix) ==> {
            &&& ix.wf()
            &&& ix.vectors@ == vectors@
            &&& ix.index.vector_count == vectors@.len()
            &&& !ix.stale
            &&& ix.config.full_scan_threshold == full_scan_threshold
            &&& ix.config.index_type == SparseIndexType::ImmutableRam
        },
        r matches Err(e) ==> e == IndexError::Cancelled,
        vectors@.len() == 0 ==> r is Ok,
{
    let n = vectors.len();
    let mut ix = fixture_open_sparse_index(n, full_scan_threshold, SparseIndexType::ImmutableRam);
    let mut vectors = vectors;
    assert(vectors@ =~= vectors@.take(n as int));
    let ghost input = vectors@;
    let mut i: usize = n;
    while i > 0
        invariant
            ix.wf(),
            n == input.len(),
            i <= n,
            all_wf(input),
            ix.vectors@.len() == n,
            vectors@ == input.take(i as int),
            forall|j: int| i <= j < n ==> ix.vectors@[j] == input[j],
            ix.config.full_scan_threshold == full_scan_threshold,
            ix.config.index_type == SparseIndexType::ImmutableRam,
        decreases i,
    {
        let v = vectors.pop().unwrap();
        assert(v == input[i - 1]);
        assert(vectors@ =~= input.take(i - 1));
        let _ = ix.insert_vector((i - 1) as u32, v);
        i = i - 1;
    }
    assert(ix.vectors@ =~= input);
    match ix.build_index_with_progress(stopped, progress) {
        Ok(()) => Ok(ix),
        Err(e) => Err(e),
    }
}

/// A built index of type `ImmutableRam` over `num_vectors` random vectors of
/// dimensions below `max_dim`.
pub fn fixture_sparse_index_ram(
    rng: &mut StdRng,
    num_vectors: usize,
    max_dim: u32,
    full_scan_threshold: usize,
    stopped: &AtomicBool,
) -> (r: Result<SparseVectorIndex, IndexError>)
    requires
        max_dim > 0,
        num_vectors <= max_points(),
    ensures
        r matches Ok(ix) ==> {
            &&& ix.wf()
            &&& ix.vectors@.len() == num_vectors
            &&& ix.index.vector_count == num_vectors
            &&& !ix.stale
            &&& forall|i: int| 0 <= i < num_vectors ==> #[trigger] ix.vectors@[i].len() > 0
            &&& ix.config.full_scan_threshold == full_scan_threshold
            &&& ix.config.index_type == SparseIndexType::ImmutableRam
        },
        r matches Err(e) ==> e == IndexError::Cancelled,
        num_vectors == 0 ==> r is Ok,
{
    let mut vectors: Vec<SparseVector> = Vec::new();
    let mut i: usize = 0;
    while i < num_vectors
        invariant
            max_dim > 0,
            i <= num_vectors,
            vectors@.len() == i,
            all_wf(vectors@),
            forall|j: int| 0 <= j < i ==> #[trigger] vectors@[j].len() > 0,
        decreases num_vectors - i,
    {
        vectors.push(random_sparse_vector(rng, max_dim));
        i = i + 1;
    }
    fixture_sparse_index_ram_from_iter(vectors, full_scan_threshold, stopped, &mut NoProgress)
}

} // verus!
