use vstd::prelude::*;
use std::sync::atomic::AtomicBool;
use std::sync::atomic::Ordering;

use crate::sparse_vector::IndexError;
use crate::sparse_vector::SparseVector;
use crate::sparse_vector::lemma_weight_at_index;

verus! {

/// Number of vectors processed between two polls of the cancellation flag.
pub const BUILD_BATCH: usize = 64;

/// Receives a tick once per batch of vectors processed by a build.
pub trait ProgressTicker {
    fn tick(&mut self);
}

/// Point offsets are `u32`: at most this many points.
pub open spec fn max_points() -> int {
    0x1_0000_0000
}

/// A ticker that ignores its ticks.
pub struct NoProgress;

impl ProgressTicker for NoProgress {
    fn tick(&mut self) {
    }
}

/// One entry of a posting list: a point and its weight in the list's dimension.
#[derive(Debug, Clone, Copy, PartialEq, Eq, Structural)]
pub struct PostingElement {
    pub record_id: u32,
    pub weight: i16,
}

/// Point `id` has dimension `d` among the vectors `0..n` of `vs`, or it is point
/// `n` and `d` is among its first `k` entries.
pub open spec fn covers(vs: Seq<SparseVector>, n: int, k: int, id: int, d: u32) -> bool {
    ||| (0 <= id < n && vs[id].has_dim(d))
    ||| (id == n && n < vs.len() && exists|k2: int| 0 <= k2 < k && vs[n].indices@[k2] == d)
}

/// The posting lists index exactly the entries that `covers` names: each entry
/// names a covered point with its weight, each list is ordered by point, and
/// each covered pair has its entry.
pub open spec fn matches_upto(ps: Seq<Seq<PostingElement>>, vs: Seq<SparseVector>, n: int, k: int) -> bool {
    &&& forall|d: int, j: int| #![trigger ps[d][j]]
        0 <= d < ps.len() && 0 <= j < ps[d].len() ==> {
            let e = ps[d][j];
            &&& covers(vs, n, k, e.record_id as int, d as u32)
            &&& e.weight as int == vs[e.record_id as int].weight_at(d as u32)
        }
    &&& forall|d: int, j1: int, j2: int| #![trigger ps[d][j1], ps[d][j2]]
        0 <= d < ps.len() && 0 <= j1 < j2 < ps[d].len() ==> ps[d][j1].record_id < ps[d][j2].record_id
    &&& forall|id: int, d: u32| #![trigger covers(vs, n, k, id, d)]
        covers(vs, n, k, id, d) ==> (d as int) < ps.len() && exists|j: int|
            0 <= j < ps[d as int].len() && ps[d as int][j].record_id == id
}

/// The posting lists index exactly the vectors `vs`, point `i` being `vs[i]`.
pub open spec fn index_matches(ps: Seq<Seq<PostingElement>>, vs: Seq<SparseVector>) -> bool {
    matches_upto(ps, vs, vs.len() as int, 0)
}

pub open spec fn all_wf(vs: Seq<SparseVector>) -> bool {
    forall|i: int| 0 <= i < vs.len() ==> #[trigger] vs[i].wf()
}

/// In-memory inverted index: posting list `d` holds the points with an entry for
/// dimension `d`, ordered by point.
pub struct InvertedIndexRam {
    pub postings: Vec<Vec<PostingElement>>,
    pub vector_count: usize,
}

impl InvertedIndexRam {
    pub open spec fn view_postings(&self) -> Seq<Seq<PostingElement>> {
        Seq::new(self.postings@.len(), |d: int| self.postings@[d]@)
    }

    /// The index holds exactly the vectors `vs`.
    pub open spec fn indexes(&self, vs: Seq<SparseVector>) -> bool {
        &&& index_matches(self.view_postings(), vs)
        &&& self.vector_count == vs.len()
        &&& self.postings@.len() <= max_points()
    }

    /// An index of no vectors.
    pub fn empty() -> (r: InvertedIndexRam)
        ensures
            r.indexes(Seq::empty()),
            r.view_postings().len() == 0,
    {
        let r = InvertedIndexRam { postings: Vec::new(), vector_count: 0 };
        assert(r.view_postings() =~= Seq::empty());
        r
    }

    /// Number of points represented in the index.
    pub fn indexed_vector_count(&self) -> (r: usize)
        ensures
            r == self.vector_count,
    {
        self.vector_count
    }

    /// The posting list of dimension `d`; empty where the dimension was never seen.
    pub fn posting_list(&self, d: u32) -> (r: &[PostingElement])
        ensures
            (d as int) < self.view_postings().len() ==> r@ == self.view_postings()[d as int],
            (d as int) >= self.view_postings().len() ==> r@.len() == 0,
    {
        if (d as usize) < self.postings.len() {
            self.postings[d as usize].as_slice()
        } else {
            &[]
        }
    }
}

/// Adding the entry of `vs[n]` at position `k` to list `d` keeps the lists in
/// step with `covers`.
proof fn lemma_push_entry(
    ps0: Seq<Seq<PostingElement>>,
    ps1: Seq<Seq<PostingElement>>,
    vs: Seq<SparseVector>,
    n: int,
    k: int,
)
    requires
        all_wf(vs),
        0 <= n < vs.len(),
        0 <= k < vs[n].len(),
        (vs[n].indices@[k] as int) < ps0.len(),
        matches_upto(ps0, vs, n, k),
        ps1 == ps0.update(
            vs[n].indices@[k] as int,
            ps0[vs[n].indices@[k] as int].push(
                PostingElement { record_id: n as u32, weight: vs[n].weights@[k] },
            ),
        ),
        n <= u32::MAX,
    ensures
        matches_upto(ps1, vs, n, k + 1),
{
    let v = vs[n];
    let d = v.indices@[k];
    let di = d as int;
    assert(v.wf());
    lemma_weight_at_index(v, k);
    assert forall|id: int, d2: u32| covers(vs, n, k, id, d2) implies covers(vs, n, k + 1, id, d2) by {
        if id == n {
            let k2 = choose|k2: int| 0 <= k2 < k && vs[n].indices@[k2] == d2;
            assert(0 <= k2 < k + 1 && vs[n].indices@[k2] == d2);
        }
    }
    assert forall|j: int| 0 <= j < ps0[di].len() implies ps0[di][j].record_id < n by {
        let e = ps0[di][j];
        assert(covers(vs, n, k, e.record_id as int, d));
        if e.record_id as int == n {
            let k2 = choose|k2: int| 0 <= k2 < k && vs[n].indices@[k2] == d;
            assert(v.indices@[k2] < v.indices@[k]);
        }
    }
    assert forall|d2: int, j: int| #![trigger ps1[d2][j]]
        0 <= d2 < ps1.len() && 0 <= j < ps1[d2].len() implies {
            let e = ps1[d2][j];
            &&& covers(vs, n, k + 1, e.record_id as int, d2 as u32)
            &&& e.weight as int == vs[e.record_id as int].weight_at(d2 as u32)
        } by {
        if d2 == di && j == ps0[di].len() {
            assert(0 <= k < k + 1 && vs[n].indices@[k] == d);
        } else {
            assert(ps1[d2][j] == ps0[d2][j]);
            assert(covers(vs, n, k, ps0[d2][j].record_id as int, d2 as u32));
        }
    }
    assert forall|d2: int, j1: int, j2: int| #![trigger ps1[d2][j1], ps1[d2][j2]]
        0 <= d2 < ps1.len() && 0 <= j1 < j2 < ps1[d2].len() implies ps1[d2][j1].record_id < ps1[d2][j2].record_id by {
        if d2 == di && j2 == ps0[di].len() {
            assert(ps1[d2][j1] == ps0[d2][j1]);
        } else {
            assert(ps1[d2][j1] == ps0[d2][j1]);
            assert(ps1[d2][j2] == ps0[d2][j2]);
        }
    }
    assert forall|id: int, d2: u32| #![trigger covers(vs, n, k + 1, id, d2)]
        covers(vs, n, k + 1, id, d2) implies (d2 as int) < ps1.len() && exists|j: int|
            0 <= j < ps1[d2 as int].len() && ps1[d2 as int][j].record_id == id by {
        if id == n && d2 == d {
            let j = ps0[di].len() as int;
            assert(ps1[di][j].record_id == id);
        } else {
            if id == n {
                let k2 = choose|k2: int| 0 <= k2 < k + 1 && vs[n].indices@[k2] == d2;
                assert(k2 != k);
                assert(covers(vs, n, k, id, d2));
            } else {
                assert(covers(vs, n, k, id, d2));
            }
            let j = choose|j: int| 0 <= j < ps0[d2 as int].len() && ps0[d2 as int][j].record_id == id;
            assert(ps1[d2 as int][j] == ps0[d2 as int][j]);
        }
    }
}

/// Appending empty lists keeps the lists in step with `covers`.
proof fn lemma_grow(ps0: Seq<Seq<PostingElement>>, vs: Seq<SparseVector>, n: int, k: int)
    requires
        matches_upto(ps0, vs, n, k),
    ensures
        matches_upto(ps0.push(Seq::empty()), vs, n, k),
{
    let ps1 = ps0.push(Seq::empty());
    assert forall|d2: int, j: int| #![trigger ps1[d2][j]]
        0 <= d2 < ps1.len() && 0 <= j < ps1[d2].len() implies {
            let e = ps1[d2][j];
            &&& covers(vs, n, k, e.record_id as int, d2 as u32)
            &&& e.weight as int == vs[e.record_id as int].weight_at(d2 as u32)
        } by {
        assert(ps1[d2][j] == ps0[d2][j]);
    }
    assert forall|d2: int, j1: int, j2: int| #![trigger ps1[d2][j1], ps1[d2][j2]]
        0 <= d2 < ps1.len() && 0 <= j1 < j2 < ps1[d2].len() implies ps1[d2][j1].record_id < ps1[d2][j2].record_id by {
        assert(ps1[d2][j1] == ps0[d2][j1]);
        assert(ps1[d2][j2] == ps0[d2][j2]);
    }
    assert forall|id: int, d2: u32| #![trigger covers(vs, n, k, id, d2)]
        covers(vs, n, k, id, d2) implies (d2 as int) < ps1.len() && exists|j: int|
            0 <= j < ps1[d2 as int].len() && ps1[d2 as int][j].record_id == id by {
        let j = choose|j: int| 0 <= j < ps0[d2 as int].len() && ps0[d2 as int][j].record_id == id;
        assert(ps1[d2 as int][j] == ps0[d2 as int][j]);
    }
}

/// Once all entries of `vs[n]` are in, the lists index the vectors `0..=n`.
proof fn lemma_next_vector(ps: Seq<Seq<PostingElement>>, vs: Seq<SparseVector>, n: int)
    requires
        0 <= n < vs.len(),
        matches_upto(ps, vs, n, vs[n].len()),
    ensures
        matches_upto(ps, vs, n + 1, 0),
{
    assert forall|id: int, d: u32| covers(vs, n, vs[n].len(), id, d) == covers(vs, n + 1, 0, id, d) by {
        if id == n && vs[n].has_dim(d) {
            let k2 = choose|k2: int| 0 <= k2 < vs[n].indices@.len() && vs[n].indices@[k2] == d;
            assert(0 <= k2 < vs[n].len() && vs[n].indices@[k2] == d);
        }
    }
    let m = vs[n].len();
    assert forall|d: int, j: int| #![trigger ps[d][j]]
        0 <= d < ps.len() && 0 <= j < ps[d].len() implies
            covers(vs, n + 1, 0, ps[d][j].record_id as int, d as u32) by {
        assert(covers(vs, n, m, ps[d][j].record_id as int, d as u32));
    }
    assert forall|id: int, d: u32| #![trigger covers(vs, n + 1, 0, id, d)]
        covers(vs, n + 1, 0, id, d) implies (d as int) < ps.len() && exists|j: int|
            0 <= j < ps[d as int].len() && ps[d as int][j].record_id == id by {
        assert(covers(vs, n, m, id, d));
    }
}

impl InvertedIndexRam {
    /// Builds the posting lists of `vectors`, point `i` being `vectors[i]`, in one
    /// pass. The flag `stopped` is polled once per batch of vectors; when it is
    /// seen set the build stops and nothing is returned but `Cancelled`.
    pub fn build<P: ProgressTicker>(
        vectors: &Vec<SparseVector>,
        stopped: &AtomicBool,
        progress: &mut P,
    ) -> (r: Result<InvertedIndexRam, IndexError>)
        requires
            all_wf(vectors@),
            vectors@.len() <= max_points(),
        ensures
            r matches Ok(ix) ==> ix.indexes(vectors@),
            r matches Err(e) ==> e == IndexError::Cancelled,
            vectors@.len() == 0 ==> r is Ok,
    {
        let mut postings: Vec<Vec<PostingElement>> = Vec::new();
        let mut p: usize = 0;
        proof {
            assert(Seq::new(postings@.len(), |d: int| postings@[d]@) =~= Seq::<Seq<PostingElement>>::empty());
        }
        while p < vectors.len()
            invariant
                all_wf(vectors@),
                vectors@.len() <= max_points(),
                p <= vectors@.len(),
                matches_upto(Seq::new(postings@.len(), |d: int| postings@[d]@), vectors@, p as int, 0),
                postings@.len() <= max_points(),
            decreases vectors@.len() - p,
        {
            if p % BUILD_BATCH == 0 {
                if stopped.load(Ordering::Relaxed) {
                    return Err(IndexError::Cancelled);
                }
                if p > 0 {
                    progress.tick();
                }
            }
            let v = &vectors[p];
            assert(v.wf());
            let mut k: usize = 0;
            while k < v.indices.len()
                invariant
                    all_wf(vectors@),
                    vectors@.len() <= max_points(),
                    p < vectors@.len(),
                    *v == vectors@[p as int],
                    v.wf(),
                    k <= v.len(),
                    matches_upto(Seq::new(postings@.len(), |d: int| postings@[d]@), vectors@, p as int, k as int),
                    postings@.len() <= max_points(),
                decreases v.len() - k,
            {
                let d = v.indices[k];
                while postings.len() <= d as usize
                    invariant
                        matches_upto(Seq::new(postings@.len(), |d: int| postings@[d]@), vectors@, p as int, k as int),
                        postings@.len() <= max_points(),
                    decreases d as int + 1 - postings@.len(),
                {
                    let ghost ps0 = Seq::new(postings@.len(), |d: int| postings@[d]@);
                    proof {
                        lemma_grow(ps0, vectors@, p as int, k as int);
                    }
                    postings.push(Vec::new());
                    assert(Seq::new(postings@.len(), |d: int| postings@[d]@) =~= ps0.push(Seq::empty()));
                }
                let ghost ps0 = Seq::new(postings@.len(), |d: int| postings@[d]@);
                let e = PostingElement { record_id: p as u32, weight: v.weights[k] };
                postings[d as usize].push(e);
                proof {
                    let ps1 = Seq::new(postings@.len(), |d: int| postings@[d]@);
                    assert(ps1 =~= ps0.update(d as int, ps0[d as int].push(e)));
                    lemma_push_entry(ps0, ps1, vectors@, p as int, k as int);
                }
                k = k + 1;
            }
            proof {
                lemma_next_vector(Seq::new(postings@.len(), |d: int| postings@[d]@), vectors@, p as int);
            }
            p = p + 1;
        }
        progress.tick();
        let ix = InvertedIndexRam { postings, vector_count: vectors.len() };
        assert(ix.view_postings() =~= Seq::new(ix.postings@.len(), |d: int| ix.postings@[d]@));
        Ok(ix)
    }
}

/// The posting lists `ps` index exactly the pairs that `c` admits, with the
/// weights of `vs`, each list ordered by point.
pub open spec fn lists_match(ps: Seq<Seq<PostingElement>>, vs: Seq<SparseVector>, c: spec_fn(int, u32) -> bool) -> bool {
    &&& forall|d: int, j: int| #![trigger ps[d][j]]
        0 <= d < ps.len() && 0 <= j < ps[d].len() ==> {
            let e = ps[d][j];
            &&& c(e.record_id as int, d as u32)
            &&& e.weight as int == vs[e.record_id as int].weight_at(d as u32)
        }
    &&& forall|d: int, j1: int, j2: int| #![trigger ps[d][j1], ps[d][j2]]
        0 <= d < ps.len() && 0 <= j1 < j2 < ps[d].len() ==> ps[d][j1].record_id < ps[d][j2].record_id
    &&& forall|id: int, d: u32| #![trigger c(id, d)]
        c(id, d) ==> (d as int) < ps.len() && exists|j: int|
            0 <= j < ps[d as int].len() && ps[d as int][j].record_id == id
}

/// The pairs of `vs`, but for point `p` those at dimensions below `dd`.
pub open spec fn covers_rm(vs: Seq<SparseVector>, p: int, dd: int, id: int, d: u32) -> bool {
    0 <= id < vs.len() && vs[id].has_dim(d) && (id != p || d as int >= dd)
}

/// The pairs of `vs`, but for point `p` only its first `k` entries.
pub open spec fn covers_ex(vs: Seq<SparseVector>, p: int, k: int, id: int, d: u32) -> bool {
    ||| (0 <= id < vs.len() && id != p && vs[id].has_dim(d))
    ||| (id == p && 0 <= p < vs.len() && exists|k2: int| 0 <= k2 < k && vs[p].indices@[k2] == d)
}

/// Lists that match one predicate match another that admits the same pairs
/// with the same weights.
proof fn lemma_transfer(
    ps: Seq<Seq<PostingElement>>,
    vs1: Seq<SparseVector>,
    c1: spec_fn(int, u32) -> bool,
    vs2: Seq<SparseVector>,
    c2: spec_fn(int, u32) -> bool,
)
    requires
        lists_match(ps, vs1, c1),
        forall|id: int, d: u32| #[trigger] c1(id, d) == c2(id, d),
        forall|id: int, d: u32| #[trigger] c1(id, d) ==> vs1[id].weight_at(d) == vs2[id].weight_at(d),
    ensures
        lists_match(ps, vs2, c2),
{
    assert forall|d: int, j: int| #![trigger ps[d][j]]
        0 <= d < ps.len() && 0 <= j < ps[d].len() implies {
            let e = ps[d][j];
            &&& c2(e.record_id as int, d as u32)
            &&& e.weight as int == vs2[e.record_id as int].weight_at(d as u32)
        } by {
        assert(c1(ps[d][j].record_id as int, d as u32));
    }
    assert forall|id: int, d: u32| #![trigger c2(id, d)]
        c2(id, d) implies (d as int) < ps.len() && exists|j: int|
            0 <= j < ps[d as int].len() && ps[d as int][j].record_id == id by {
        assert(c1(id, d));
    }
}

proof fn lemma_match_index(ps: Seq<Seq<PostingElement>>, vs: Seq<SparseVector>)
    requires
        lists_match(ps, vs, |i: int, d: u32| covers(vs, vs.len() as int, 0, i, d)),
    ensures
        index_matches(ps, vs),
{
    let c = |i: int, d: u32| covers(vs, vs.len() as int, 0, i, d);
    assert forall|id: int, d: u32| #![trigger covers(vs, vs.len() as int, 0, id, d)]
        covers(vs, vs.len() as int, 0, id, d) implies (d as int) < ps.len() && exists|j: int|
            0 <= j < ps[d as int].len() && ps[d as int][j].record_id == id by {
        assert(c(id, d));
    }
}

/// Appending an empty list keeps the lists matching.
proof fn lemma_grow_match(ps0: Seq<Seq<PostingElement>>, vs: Seq<SparseVector>, c: spec_fn(int, u32) -> bool)
    requires
        lists_match(ps0, vs, c),
    ensures
        lists_match(ps0.push(Seq::empty()), vs, c),
{
    let ps1 = ps0.push(Seq::empty());
    assert forall|d2: int, j: int| #![trigger ps1[d2][j]]
        0 <= d2 < ps1.len() && 0 <= j < ps1[d2].len() implies {
            let e = ps1[d2][j];
            &&& c(e.record_id as int, d2 as u32)
            &&& e.weight as int == vs[e.record_id as int].weight_at(d2 as u32)
        } by {
        assert(ps1[d2][j] == ps0[d2][j]);
    }
    assert forall|d2: int, j1: int, j2: int| #![trigger ps1[d2][j1], ps1[d2][j2]]
        0 <= d2 < ps1.len() && 0 <= j1 < j2 < ps1[d2].len() implies ps1[d2][j1].record_id < ps1[d2][j2].record_id by {
        assert(ps1[d2][j1] == ps0[d2][j1]);
        assert(ps1[d2][j2] == ps0[d2][j2]);
    }
    assert forall|id: int, d2: u32| #![trigger c(id, d2)]
        c(id, d2) implies (d2 as int) < ps1.len() && exists|j: int|
            0 <= j < ps1[d2 as int].len() && ps1[d2 as int][j].record_id == id by {
        let j = choose|j: int| 0 <= j < ps0[d2 as int].len() && ps0[d2 as int][j].record_id == id;
        assert(ps1[d2 as int][j] == ps0[d2 as int][j]);
    }
}

/// Taking point `p` out of list `dd` (where it may or may not be).
proof fn lemma_remove_step(
    ps0: Seq<Seq<PostingElement>>,
    ps1: Seq<Seq<PostingElement>>,
    vs: Seq<SparseVector>,
    p: int,
    dd: int,
    j: int,
)
    requires
        lists_match(ps0, vs, |id: int, d: u32| covers_rm(vs, p, dd, id, d)),
        0 <= dd < ps0.len(),
        ps0.len() <= max_points(),
        0 <= j <= ps0[dd].len(),
        forall|jj: int| 0 <= jj < j ==> ps0[dd][jj].record_id as int != p,
        j < ps0[dd].len() ==> ps0[dd][j].record_id as int == p && ps1 == ps0.update(dd, ps0[dd].remove(j)),
        j == ps0[dd].len() ==> ps1 == ps0,
    ensures
        lists_match(ps1, vs, |id: int, d: u32| covers_rm(vs, p, dd + 1, id, d)),
{
    let c0 = |id: int, d: u32| covers_rm(vs, p, dd, id, d);
    let c1 = |id: int, d: u32| covers_rm(vs, p, dd + 1, id, d);
    assert forall|jj: int| 0 <= jj < ps0[dd].len() && jj != j implies ps0[dd][jj].record_id as int != p by {
        if jj > j && j < ps0[dd].len() {
            assert(ps0[dd][j].record_id < ps0[dd][jj].record_id);
        }
    }
    // position in ps0 of the entry at position jj of ps1's list dd
    let src = |d2: int, jj: int| if d2 == dd && jj >= j { jj + 1 } else { jj };
    assert forall|d2: int, jj: int| 0 <= d2 < ps1.len() && 0 <= jj < ps1[d2].len() implies
        ps1[d2][jj] == ps0[d2][src(d2, jj)] && 0 <= src(d2, jj) < ps0[d2].len() by {
    }
    assert forall|d2: int, jj: int| #![trigger ps1[d2][jj]]
        0 <= d2 < ps1.len() && 0 <= jj < ps1[d2].len() implies {
            let e = ps1[d2][jj];
            &&& c1(e.record_id as int, d2 as u32)
            &&& e.weight as int == vs[e.record_id as int].weight_at(d2 as u32)
        } by {
        let s = src(d2, jj);
        assert(ps1[d2][jj] == ps0[d2][s]);
        assert(c0(ps0[d2][s].record_id as int, d2 as u32));
        if d2 == dd {
            assert(s != j || j == ps0[dd].len());
        }
    }
    assert forall|d2: int, j1: int, j2: int| #![trigger ps1[d2][j1], ps1[d2][j2]]
        0 <= d2 < ps1.len() && 0 <= j1 < j2 < ps1[d2].len() implies ps1[d2][j1].record_id < ps1[d2][j2].record_id by {
        assert(ps1[d2][j1] == ps0[d2][src(d2, j1)]);
        assert(ps1[d2][j2] == ps0[d2][src(d2, j2)]);
    }
    assert forall|id: int, d2: u32| #![trigger c1(id, d2)]
        c1(id, d2) implies (d2 as int) < ps1.len() && exists|jj: int|
            0 <= jj < ps1[d2 as int].len() && ps1[d2 as int][jj].record_id == id by {
        assert(c0(id, d2));
        let jj = choose|jj: int| 0 <= jj < ps0[d2 as int].len() && ps0[d2 as int][jj].record_id == id;
        if d2 as int == dd && j < ps0[dd].len() {
            assert(id != p);
            assert(jj != j);
            if jj > j {
                assert(ps1[dd][jj - 1] == ps0[dd][jj]);
            } else {
                assert(ps1[dd][jj] == ps0[dd][jj]);
            }
        } else {
            assert(ps1[d2 as int][jj] == ps0[d2 as int][jj]);
        }
    }
}

/// Inserting the entry of `vs[p]` at position `k` into its list, at the place
/// that keeps the list ordered.
proof fn lemma_insert_step(
    ps0: Seq<Seq<PostingElement>>,
    ps1: Seq<Seq<PostingElement>>,
    vs: Seq<SparseVector>,
    p: int,
    k: int,
    pos: int,
)
    requires
        all_wf(vs),
        0 <= p < vs.len(),
        p <= u32::MAX,
        0 <= k < vs[p].len(),
        (vs[p].indices@[k] as int) < ps0.len(),
        lists_match(ps0, vs, |id: int, d: u32| covers_ex(vs, p, k, id, d)),
        0 <= pos <= ps0[vs[p].indices@[k] as int].len(),
        forall|jj: int| 0 <= jj < pos ==> ps0[vs[p].indices@[k] as int][jj].record_id < p,
        pos < ps0[vs[p].indices@[k] as int].len() ==> ps0[vs[p].indices@[k] as int][pos].record_id >= p,
        ps1 == ps0.update(
            vs[p].indices@[k] as int,
            ps0[vs[p].indices@[k] as int].insert(pos, PostingElement { record_id: p as u32, weight: vs[p].weights@[k] }),
        ),
    ensures
        lists_match(ps1, vs, |id: int, d: u32| covers_ex(vs, p, k + 1, id, d)),
{
    let c0 = |id: int, d: u32| covers_ex(vs, p, k, id, d);
    let c1 = |id: int, d: u32| covers_ex(vs, p, k + 1, id, d);
    let v = vs[p];
    let d = v.indices@[k];
    let di = d as int;
    assert(v.wf());
    lemma_weight_at_index(v, k);
    assert forall|jj: int| 0 <= jj < ps0[di].len() implies ps0[di][jj].record_id as int != p by {
        assert(c0(ps0[di][jj].record_id as int, d));
        if ps0[di][jj].record_id as int == p {
            let k2 = choose|k2: int| 0 <= k2 < k && vs[p].indices@[k2] == d;
            assert(v.indices@[k2] < v.indices@[k]);
        }
    }
    assert forall|jj: int| pos <= jj < ps0[di].len() implies ps0[di][jj].record_id > p by {
        if jj > pos {
            assert(ps0[di][pos].record_id < ps0[di][jj].record_id);
        }
    }
    let src = |d2: int, jj: int| if d2 == di && jj > pos { jj - 1 } else { jj };
    assert forall|id: int, d2: u32| #[trigger] c0(id, d2) implies c1(id, d2) by {
        if id == p && !(0 <= id < vs.len() && id != p && vs[id].has_dim(d2)) {
            let k2 = choose|k2: int| 0 <= k2 < k && vs[p].indices@[k2] == d2;
            assert(0 <= k2 < k + 1 && vs[p].indices@[k2] == d2);
        }
    }
    assert forall|d2: int, jj: int| #![trigger ps1[d2][jj]]
        0 <= d2 < ps1.len() && 0 <= jj < ps1[d2].len() implies {
            let e = ps1[d2][jj];
            &&& c1(e.record_id as int, d2 as u32)
            &&& e.weight as int == vs[e.record_id as int].weight_at(d2 as u32)
        } by {
        if d2 == di && jj == pos {
            assert(0 <= k < k + 1 && vs[p].indices@[k] == d);
        } else {
            assert(ps1[d2][jj] == ps0[d2][src(d2, jj)]);
            assert(c0(ps0[d2][src(d2, jj)].record_id as int, d2 as u32));
        }
    }
    assert forall|d2: int, j1: int, j2: int| #![trigger ps1[d2][j1], ps1[d2][j2]]
        0 <= d2 < ps1.len() && 0 <= j1 < j2 < ps1[d2].len() implies ps1[d2][j1].record_id < ps1[d2][j2].record_id by {
        if d2 == di {
            if j1 == pos {
                assert(ps1[d2][j2] == ps0[d2][j2 - 1]);
            } else if j2 == pos {
                assert(ps1[d2][j1] == ps0[d2][j1]);
            } else {
                assert(ps1[d2][j1] == ps0[d2][src(d2, j1)]);
                assert(ps1[d2][j2] == ps0[d2][src(d2, j2)]);
            }
        } else {
            assert(ps1[d2][j1] == ps0[d2][j1]);
            assert(ps1[d2][j2] == ps0[d2][j2]);
        }
    }
    assert forall|id: int, d2: u32| #![trigger c1(id, d2)]
        c1(id, d2) implies (d2 as int) < ps1.len() && exists|jj: int|
            0 <= jj < ps1[d2 as int].len() && ps1[d2 as int][jj].record_id == id by {
        if id == p && d2 == d {
            assert(ps1[di][pos].record_id as int == id);
        } else {
            if id == p {
                let k2 = choose|k2: int| 0 <= k2 < k + 1 && vs[p].indices@[k2] == d2;
                assert(k2 != k);
            }
            assert(c0(id, d2));
            let jj = choose|jj: int| 0 <= jj < ps0[d2 as int].len() && ps0[d2 as int][jj].record_id == id;
            if d2 as int == di && jj >= pos {
                assert(ps1[di][jj + 1] == ps0[di][jj]);
            } else {
                assert(ps1[d2 as int][jj] == ps0[d2 as int][jj]);
            }
        }
    }
}

impl InvertedIndexRam {
    /// Replaces the entries of point `id` by those of `v`: `id` leaves the lists
    /// of the dimensions that `v` lacks and joins, at its place by offset, the
    /// lists of those that `v` has. `id` may be one past the last point.
    pub(crate) fn upsert(
        &mut self,
        id: u32,
        v: &SparseVector,
        Ghost(vs_old): Ghost<Seq<SparseVector>>,
        Ghost(vs_new): Ghost<Seq<SparseVector>>,
    )
        requires
            old(self).indexes(vs_old),
            all_wf(vs_old),
            v.wf(),
            id <= vs_old.len(),
            vs_new.len() <= usize::MAX,
            vs_new == if (id as int) < vs_old.len() { vs_old.update(id as int, *v) } else { vs_old.push(*v) },
        ensures
            final(self).indexes(vs_new),
    {
        let ghost p = id as int;
        let ghost ps_start = self.view_postings();
        proof {
            lemma_transfer(
                ps_start,
                vs_old,
                |i: int, d: u32| covers(vs_old, vs_old.len() as int, 0, i, d),
                vs_old,
                |i: int, d: u32| covers_rm(vs_old, p, 0, i, d),
            );
        }
        let mut dd: usize = 0;
        while dd < self.postings.len()
            invariant
                lists_match(self.view_postings(), vs_old, |i: int, d: u32| covers_rm(vs_old, p, dd as int, i, d)),
                self.postings@.len() == ps_start.len(),
                self.postings@.len() <= max_points(),
                self.vector_count == vs_old.len(),
                dd <= self.postings@.len(),
                p == id as int,
            decreases self.postings@.len() - dd,
        {
            let ghost ps0 = self.view_postings();
            let mut j: usize = 0;
            while j < self.postings[dd].len() && self.postings[dd][j].record_id != id
                invariant
                    ps0 == self.view_postings(),
                    self.vector_count == vs_old.len(),
                    p == id as int,
                    dd < ps0.len(),
                    j <= ps0[dd as int].len(),
                    forall|jj: int| 0 <= jj < j ==> ps0[dd as int][jj].record_id as int != p,
                decreases ps0[dd as int].len() - j,
            {
                j = j + 1;
            }
            if j < self.postings[dd].len() {
                self.postings[dd].remove(j);
            }
            proof {
                let ps1 = self.view_postings();
                if j < ps0[dd as int].len() {
                    assert(ps1 =~= ps0.update(dd as int, ps0[dd as int].remove(j as int)));
                } else {
                    assert(ps1 =~= ps0);
                }
                lemma_remove_step(ps0, ps1, vs_old, p, dd as int, j as int);
            }
            dd = dd + 1;
        }
        proof {
            let ps = self.view_postings();
            let c_rm = |i: int, d: u32| covers_rm(vs_old, p, ps.len() as int, i, d);
            let c_ex = |i: int, d: u32| covers_ex(vs_new, p, 0, i, d);
            assert forall|i: int, d: u32| #[trigger] c_rm(i, d) == c_ex(i, d) by {
                if c_rm(i, d) && i == p {
                    assert((d as int) < ps.len());
                }
            }
            lemma_transfer(ps, vs_old, c_rm, vs_new, c_ex);
        }
        let mut k: usize = 0;
        while k < v.indices.len()
            invariant
                lists_match(self.view_postings(), vs_new, |i: int, d: u32| covers_ex(vs_new, p, k as int, i, d)),
                self.postings@.len() <= max_points(),
                self.vector_count == vs_old.len(),
                p == id as int,
                v.wf(),
                all_wf(vs_old),
                id <= vs_old.len(),
                vs_new.len() <= usize::MAX,
                vs_new == if (id as int) < vs_old.len() { vs_old.update(id as int, *v) } else { vs_old.push(*v) },
                p < vs_new.len(),
                vs_new[p] == *v,
                all_wf(vs_new),
                k <= v.len(),
            decreases v.len() - k,
        {
            let d = v.indices[k];
            while self.postings.len() <= d as usize
                invariant
                    lists_match(self.view_postings(), vs_new, |i: int, d: u32| covers_ex(vs_new, p, k as int, i, d)),
                    self.postings@.len() <= max_points(),
                    self.vector_count == vs_old.len(),
                decreases d as int + 1 - self.postings@.len(),
            {
                let ghost ps0 = self.view_postings();
                proof {
                    lemma_grow_match(ps0, vs_new, |i: int, d: u32| covers_ex(vs_new, p, k as int, i, d));
                }
                self.postings.push(Vec::new());
                assert(self.view_postings() =~= ps0.push(Seq::empty()));
            }
            let ghost ps0 = self.view_postings();
            let mut pos: usize = 0;
            while pos < self.postings[d as usize].len() && self.postings[d as usize][pos].record_id < id
                invariant
                    ps0 == self.view_postings(),
                    p == id as int,
                    (d as int) < ps0.len(),
                    pos <= ps0[d as int].len(),
                    forall|jj: int| 0 <= jj < pos ==> ps0[d as int][jj].record_id < p,
                decreases ps0[d as int].len() - pos,
            {
                assert(ps0[d as int][pos as int] == self.postings@[d as int]@[pos as int]);
                pos = pos + 1;
            }
            let e = PostingElement { record_id: id, weight: v.weights[k] };
            self.postings[d as usize].insert(pos, e);
            proof {
                let ps1 = self.view_postings();
                assert(ps1 =~= ps0.update(d as int, ps0[d as int].insert(pos as int, e)));
                lemma_insert_step(ps0, ps1, vs_new, p, k as int, pos as int);
            }
            k = k + 1;
        }
        if id as usize == self.vector_count {
            self.vector_count = self.vector_count + 1;
        }
        proof {
            let ps = self.view_postings();
            let c_ex = |i: int, d: u32| covers_ex(vs_new, p, v.len(), i, d);
            let c_ix = |i: int, d: u32| covers(vs_new, vs_new.len() as int, 0, i, d);
            assert forall|i: int, d: u32| #[trigger] c_ex(i, d) == c_ix(i, d) by {
                if i == p && vs_new[p].has_dim(d) {
                    let k2 = choose|k2: int| 0 <= k2 < v.indices@.len() && v.indices@[k2] == d;
                    assert(0 <= k2 < v.len() && vs_new[p].indices@[k2] == d);
                }
            }
            lemma_transfer(ps, vs_new, c_ex, vs_new, c_ix);
            lemma_match_index(ps, vs_new);
        }
    }

}

} // verus!
