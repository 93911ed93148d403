use vstd::prelude::*;
use std::sync::atomic::AtomicBool;

use crate::inverted_index::InvertedIndexRam;
use crate::inverted_index::ProgressTicker;
use crate::inverted_index::all_wf;
use crate::inverted_index::max_points;
use crate::search::ScoredPoint;
use crate::search::full_scan_candidates;
use crate::search::index_scan_candidates;
use crate::search::search_result;
use crate::search::index_candidates;
use crate::search::top_k;
use crate::search::filter_view;
use crate::search::filtered_result;
use crate::search::keep_admitted;
use crate::search::keep_admitted_points;
use crate::search::lemma_keep_all;
use crate::search::lemma_result_ranked;
use crate::search::is_ranked;
use crate::search::distinct_points;
use crate::search::select_top_k;
use crate::sparse_vector::IndexError;
use crate::sparse_vector::SparseVector;

verus! {

/// How a vector index keeps its posting lists in step with writes. The lists
/// themselves are always growable in-memory lists; the compacted and
/// persisted forms live in `immutable_index`.
#[derive(Debug, Clone, Copy, PartialEq, Eq, Structural)]
pub enum SparseIndexType {
    /// Every write reaches the posting lists at once.
    MutableRam,
    /// Writes after a build leave the lists as they were and mark the index as
    /// lagging; the next build brings it up to date.
    ImmutableRam,
    /// Writes are handled as for `ImmutableRam`; the lists are meant to be
    /// persisted in compacted form.
    Mmap,
}

/// How a vector index chooses between a full scan and its posting lists.
#[derive(Debug, Clone, Copy, PartialEq, Eq, Structural)]
pub struct SparseIndexConfig {
    /// Below this many stored vectors every search is a full scan.
    pub full_scan_threshold: usize,
    pub index_type: SparseIndexType,
}

impl SparseIndexConfig {
    pub fn new(full_scan_threshold: usize, index_type: SparseIndexType) -> (r: SparseIndexConfig)
        ensures
            r.full_scan_threshold == full_scan_threshold,
            r.index_type == index_type,
    {
        SparseIndexConfig { full_scan_threshold, index_type }
    }
}

/// A vector storage together with the inverted index over it. Point `i` is
/// `vectors[i]`. While `stale` is false the index holds exactly the stored
/// vectors; once a write could not reach the index, `stale` is set and searches
/// scan the storage until the next build.
pub struct SparseVectorIndex {
    pub config: SparseIndexConfig,
    pub vectors: Vec<SparseVector>,
    pub index: InvertedIndexRam,
    pub stale: bool,
}

impl SparseVectorIndex {
    pub open spec fn wf(&self) -> bool {
        &&& all_wf(self.vectors@)
        &&& self.vectors@.len() <= max_points()
        &&& !self.stale ==> self.index.indexes(self.vectors@)
    }

    /// Whether a search goes over the stored vectors rather than the posting lists.
    pub open spec fn full_scan_spec(&self) -> bool {
        self.vectors@.len() < self.config.full_scan_threshold || self.stale
    }

    /// Opens an index over `vectors`. A mutable index takes the stored vectors
    /// point by point at once and is ready for searches and writes. Any other
    /// index starts with no posting lists: searches scan the storage until the
    /// first build.
    pub fn open(config: SparseIndexConfig, vectors: Vec<SparseVector>) -> (r: SparseVectorIndex)
        requires
            all_wf(vectors@),
            vectors@.len() <= max_points(),
        ensures
            r.wf(),
            r.config == config,
            r.vectors@ == vectors@,
            config.index_type == SparseIndexType::MutableRam ==> {
                &&& !r.stale
                &&& r.index.indexes(vectors@)
            },
            config.index_type != SparseIndexType::MutableRam ==> {
                &&& r.index.vector_count == 0
                &&& r.index.view_postings().len() == 0
                &&& r.stale == (vectors@.len() > 0)
            },
    {
        let mut index = InvertedIndexRam::empty();
        if matches!(config.index_type, SparseIndexType::MutableRam) {
            let mut i: usize = 0;
            while i < vectors.len()
                invariant
                    all_wf(vectors@),
                    vectors@.len() <= max_points(),
                    i <= vectors@.len(),
                    index.indexes(vectors@.take(i as int)),
                decreases vectors@.len() - i,
            {
                proof {
                    assert(all_wf(vectors@.take(i as int)));
                    assert(vectors@.take(i as int).push(vectors@[i as int]) =~= vectors@.take(i + 1));
                }
                assert(vectors@[i as int].wf());
                index.upsert(i as u32, &vectors[i], Ghost(vectors@.take(i as int)), Ghost(vectors@.take(i + 1)));
                i = i + 1;
            }
            assert(vectors@.take(i as int) =~= vectors@);
            SparseVectorIndex { config, vectors, index, stale: false }
        } else {
            let stale = vectors.len() > 0;
            SparseVectorIndex { config, vectors, index, stale }
        }
    }

    /// Number of vectors in the storage.
    pub fn available_vector_count(&self) -> (r: usize)
        ensures
            r == self.vectors@.len(),
    {
        self.vectors.len()
    }

    /// Number of vectors that the inverted index holds.
    pub fn indexed_vector_count(&self) -> (r: usize)
        ensures
            r == self.index.vector_count,
    {
        self.index.indexed_vector_count()
    }

    /// Whether a search goes over the stored vectors rather than the posting lists.
    pub fn uses_full_scan(&self) -> (r: bool)
        ensures
            r == self.full_scan_spec(),
    {
        self.vectors.len() < self.config.full_scan_threshold || self.stale
    }

    /// Rebuilds the inverted index from the stored vectors. On success the index
    /// holds every stored vector; when `stopped` is seen set nothing changes.
    pub fn build_index_with_progress<P: ProgressTicker>(
        &mut self,
        stopped: &AtomicBool,
        progress: &mut P,
    ) -> (r: Result<(), IndexError>)
        requires
            old(self).wf(),
        ensures
            final(self).wf(),
            r is Ok ==> {
                &&& final(self).index.vector_count == old(self).vectors@.len()
                &&& final(self).index.indexes(old(self).vectors@)
                &&& !final(self).stale
                &&& final(self).vectors == old(self).vectors
                &&& final(self).config == old(self).config
            },
            r matches Err(e) ==> e == IndexError::Cancelled && *final(self) == *old(self),
            old(self).vectors@.len() == 0 ==> r is Ok,
    {
        match InvertedIndexRam::build(&self.vectors, stopped, progress) {
            Ok(ix) => {
                self.index = ix;
                self.stale = false;
                Ok(())
            },
            Err(e) => Err(e),
        }
    }

    /// The best `top` points for `query` among those that `filter` allows, by a
    /// full scan of the storage.
    pub fn search_full_scan(
        &self,
        query: &SparseVector,
        top: usize,
        filter: Option<&Vec<bool>>,
        stopped: &AtomicBool,
    ) -> (r: Result<Vec<ScoredPoint>, IndexError>)
        requires
            self.wf(),
            query.wf(),
        ensures
            r matches Ok(v) ==> v@ == filtered_result(*query, self.vectors@, top as nat, filter_view(filter)),
            r matches Ok(v) ==> filter is None ==> v@ == search_result(*query, self.vectors@, top as nat),
            r matches Err(e) ==> e == IndexError::Cancelled,
            self.vectors@.len() == 0 ==> r is Ok,
    {
        match full_scan_candidates(query, &self.vectors, stopped) {
            Ok(c) => {
                let kept = keep_admitted_points(&c, filter);
                proof {
                    lemma_keep_all(c@);
                }
                Ok(select_top_k(&kept, top))
            },
            Err(e) => Err(e),
        }
    }

    /// The best `top` points for `query` among those that `filter` allows, over
    /// the posting lists of its dimensions.
    pub fn search_with_index(&self, query: &SparseVector, top: usize, filter: Option<&Vec<bool>>) -> (r: Vec<ScoredPoint>)
        requires
            self.wf(),
            !self.stale,
            query.wf(),
        ensures
            r@ == top_k(
                keep_admitted(index_candidates(*query, self.index.view_postings(), self.vectors@.len() as int), filter_view(filter)),
                top as nat,
            ),
            r@ == filtered_result(*query, self.vectors@, top as nat, filter_view(filter)),
            filter is None ==> r@ == search_result(*query, self.vectors@, top as nat),
    {
        let c = index_scan_candidates(query, &self.index, self.vectors.len(), Ghost(self.vectors@));
        let kept = keep_admitted_points(&c, filter);
        proof {
            lemma_keep_all(c@);
        }
        select_top_k(&kept, top)
    }

    /// The best `top` points for `query` among those that `filter` allows:
    /// descending by score, ties by ascending offset, only points that share a
    /// dimension with the query. A full scan serves the search when the storage
    /// holds fewer vectors than the threshold or the index lags behind the
    /// storage; the posting lists serve it otherwise.
    pub fn search(
        &self,
        query: &SparseVector,
        top: usize,
        filter: Option<&Vec<bool>>,
        stopped: &AtomicBool,
    ) -> (r: Result<Vec<ScoredPoint>, IndexError>)
        requires
            self.wf(),
            query.wf(),
        ensures
            r matches Ok(v) ==> v@ == filtered_result(*query, self.vectors@, top as nat, filter_view(filter)),
            r matches Ok(v) ==> filter is None ==> v@ == search_result(*query, self.vectors@, top as nat),
            r matches Ok(v) ==> is_ranked(v@) && distinct_points(v@),
            r matches Err(e) ==> e == IndexError::Cancelled && self.full_scan_spec(),
            self.vectors@.len() == 0 ==> r is Ok,
            !self.full_scan_spec() ==> r is Ok,
    {
        proof {
            lemma_result_ranked(*query, self.vectors@, top as nat, filter_view(filter));
        }
        if self.uses_full_scan() {
            self.search_full_scan(query, top, filter, stopped)
        } else {
            Ok(self.search_with_index(query, top, filter))
        }
    }

    /// Writes `v` as point `offset`, replacing the vector there or, for the
    /// offset one past the last point, appending it. A mutable index that holds
    /// every stored vector takes the write too; otherwise the index is marked as
    /// lagging and searches scan the storage until the next build.
    pub fn insert_vector(&mut self, offset: u32, v: SparseVector) -> (r: Result<(), IndexError>)
        requires
            old(self).wf(),
            v.wf(),
        ensures
            final(self).wf(),
            final(self).config == old(self).config,
            r is Ok <==> (offset as int) <= old(self).vectors@.len(),
            r matches Err(e) ==> e == IndexError::OffsetOutOfRange && *final(self) == *old(self),
            r is Ok ==> final(self).vectors@ == if (offset as int) < old(self).vectors@.len() {
                old(self).vectors@.update(offset as int, v)
            } else {
                old(self).vectors@.push(v)
            },
            r is Ok ==> (final(self).stale <==> (old(self).stale || old(self).config.index_type != SparseIndexType::MutableRam)),
            r is Ok && final(self).stale ==> final(self).index == old(self).index,
    {
        if offset as usize > self.vectors.len() {
            return Err(IndexError::OffsetOutOfRange);
        }
        let ghost vs_old = self.vectors@;
        if (offset as usize) < self.vectors.len() {
            self.vectors.set(offset as usize, v);
        } else {
            self.vectors.push(v);
        }
        let n = self.vectors.len();
        assert(all_wf(self.vectors@)) by {
            assert forall|i: int| 0 <= i < self.vectors@.len() implies #[trigger] self.vectors@[i].wf() by {
                if i != offset as int {
                    assert(self.vectors@[i] == vs_old[i]);
                }
            }
        }
        if matches!(self.config.index_type, SparseIndexType::MutableRam) && !self.stale {
            self.index.upsert(offset, &self.vectors[offset as usize], Ghost(vs_old), Ghost(self.vectors@));
        } else {
            self.stale = true;
        }
        Ok(())
    }

    /// Deletes point `offset`: its stored vector becomes empty, so that no
    /// search finds it. A mutable index that holds every stored vector drops
    /// the point's entries; otherwise the index is marked as lagging.
    pub fn delete_vector(&mut self, offset: u32) -> (r: Result<(), IndexError>)
        requires
            old(self).wf(),
        ensures
            final(self).wf(),
            final(self).config == old(self).config,
            r is Ok <==> (offset as int) < old(self).vectors@.len(),
            r matches Err(e) ==> e == IndexError::OffsetOutOfRange && *final(self) == *old(self),
            r is Ok ==> {
                &&& final(self).vectors@.len() == old(self).vectors@.len()
                &&& final(self).vectors@[offset as int].len() == 0
                &&& forall|i: int| 0 <= i < old(self).vectors@.len() && i != offset as int
                    ==> #[trigger] final(self).vectors@[i] == old(self).vectors@[i]
            },
            r is Ok ==> (final(self).stale <==> (old(self).stale || old(self).config.index_type != SparseIndexType::MutableRam)),
    {
        if offset as usize >= self.vectors.len() {
            return Err(IndexError::OffsetOutOfRange);
        }
        let ghost vs_old = self.vectors@;
        self.vectors.set(offset as usize, SparseVector::empty());
        assert(all_wf(self.vectors@)) by {
            assert forall|i: int| 0 <= i < self.vectors@.len() implies #[trigger] self.vectors@[i].wf() by {
                if i != offset as int {
                    assert(self.vectors@[i] == vs_old[i]);
                }
            }
        }
        if matches!(self.config.index_type, SparseIndexType::MutableRam) && !self.stale {
            self.index.upsert(offset, &self.vectors[offset as usize], Ghost(vs_old), Ghost(self.vectors@));
        } else {
            self.stale = true;
        }
        Ok(())
    }
}

} // verus!
