use vstd::prelude::*;
use std::sync::atomic::AtomicBool;
use std::sync::atomic::Ordering;

use crate::inverted_index::BUILD_BATCH;
use crate::inverted_index::InvertedIndexRam;
use crate::inverted_index::all_wf;
use crate::inverted_index::max_points;
use crate::inverted_index::covers;
use crate::inverted_index::index_matches;
use crate::inverted_index::PostingElement;
use crate::sparse_vector::IndexError;
use crate::sparse_vector::SparseVector;
use crate::sparse_vector::dot;
use crate::sparse_vector::dot_prefix;
use crate::sparse_vector::lemma_ascending_len;
use crate::sparse_vector::lemma_weight_at_index;
use crate::sparse_vector::lemma_product_bound;
use crate::sparse_vector::lemma_dot_prefix_bound;
use crate::sparse_vector::product_bound;
use crate::sparse_vector::shares;
use crate::sparse_vector::shares_prefix;

verus! {

/// A point offset with its score against a query.
#[derive(Debug, Clone, Copy, PartialEq, Eq, Structural)]
pub struct ScoredPoint {
    pub idx: u32,
    pub score: i64,
}

/// `a` ranks before `b`: a higher score, or an equal score and a lower offset.
pub open spec fn ranks_before(a: ScoredPoint, b: ScoredPoint) -> bool {
    a.score > b.score || (a.score == b.score && a.idx < b.idx)
}

/// Inserts `x` into `s` before the first element that it ranks before.
pub open spec fn insert_ranked(s: Seq<ScoredPoint>, x: ScoredPoint) -> Seq<ScoredPoint>
    decreases s.len(),
{
    if s.len() == 0 {
        seq![x]
    } else if ranks_before(x, s[0]) {
        seq![x] + s
    } else {
        seq![s[0]] + insert_ranked(s.drop_first(), x)
    }
}

/// The best `k` of `s`, ranked, built by inserting each element in turn and
/// keeping the first `k`.
pub open spec fn top_k(s: Seq<ScoredPoint>, k: nat) -> Seq<ScoredPoint>
    decreases s.len(),
{
    if s.len() == 0 {
        Seq::empty()
    } else {
        let u = insert_ranked(top_k(s.drop_last(), k), s.last());
        if u.len() > k {
            u.take(k as int)
        } else {
            u
        }
    }
}

/// Each element ranks before the next.
pub open spec fn is_ranked(s: Seq<ScoredPoint>) -> bool {
    forall|i: int| 0 <= i < s.len() - 1 ==> ranks_before(#[trigger] s[i], s[i + 1])
}

proof fn lemma_insert_at(s: Seq<ScoredPoint>, x: ScoredPoint, i: int)
    requires
        0 <= i <= s.len(),
        forall|j: int| 0 <= j < i ==> !ranks_before(x, #[trigger] s[j]),
        i < s.len() ==> ranks_before(x, s[i]),
    ensures
        insert_ranked(s, x) == s.take(i) + seq![x] + s.skip(i),
    decreases i,
{
    if i == 0 {
        assert(s.take(0) + seq![x] + s.skip(0) =~= seq![x] + s);
    } else {
        let t = s.drop_first();
        assert forall|j: int| 0 <= j < i - 1 implies !ranks_before(x, #[trigger] t[j]) by {
            assert(t[j] == s[j + 1]);
        }
        lemma_insert_at(t, x, i - 1);
        assert(seq![s[0]] + (t.take(i - 1) + seq![x] + t.skip(i - 1)) =~= s.take(i) + seq![x] + s.skip(i));
    }
}

proof fn lemma_insert_len(s: Seq<ScoredPoint>, x: ScoredPoint)
    ensures
        insert_ranked(s, x).len() == s.len() + 1,
    decreases s.len(),
{
    if s.len() > 0 {
        lemma_insert_len(s.drop_first(), x);
    }
}

proof fn lemma_top_k_len(s: Seq<ScoredPoint>, k: nat)
    ensures
        top_k(s, k).len() == if s.len() < k { s.len() } else { k },
    decreases s.len(),
{
    if s.len() > 0 {
        lemma_top_k_len(s.drop_last(), k);
        lemma_insert_len(top_k(s.drop_last(), k), s.last());
    }
}

/// No two elements share a point offset.
pub open spec fn distinct_points(s: Seq<ScoredPoint>) -> bool {
    forall|i: int, j: int| 0 <= i < j < s.len() ==> s[i].idx != s[j].idx
}

proof fn lemma_insert_from(t: Seq<ScoredPoint>, x: ScoredPoint)
    ensures
        forall|y: ScoredPoint| #[trigger] insert_ranked(t, x).contains(y) ==> y == x || t.contains(y),
        insert_ranked(t, x)[0] == x || (t.len() > 0 && insert_ranked(t, x)[0] == t[0]),
    decreases t.len(),
{
    lemma_insert_len(t, x);
    if t.len() > 0 && !ranks_before(x, t[0]) {
        let r = t.drop_first();
        lemma_insert_from(r, x);
        let u = insert_ranked(t, x);
        assert(u == seq![t[0]] + insert_ranked(r, x));
        assert forall|y: ScoredPoint| u.contains(y) implies y == x || t.contains(y) by {
            let i = choose|i: int| 0 <= i < u.len() && u[i] == y;
            if i > 0 {
                assert(insert_ranked(r, x)[i - 1] == y);
                assert(insert_ranked(r, x).contains(y));
                if y != x {
                    let i2 = choose|i2: int| 0 <= i2 < r.len() && r[i2] == y;
                    assert(t[i2 + 1] == y);
                }
            } else {
                assert(t[0] == y);
            }
        }
    } else if t.len() > 0 {
        let u = insert_ranked(t, x);
        assert forall|y: ScoredPoint| u.contains(y) implies y == x || t.contains(y) by {
            let i = choose|i: int| 0 <= i < u.len() && u[i] == y;
            if i > 0 {
                assert(t[i - 1] == y);
            }
        }
    } else {
        let u = insert_ranked(t, x);
        assert forall|y: ScoredPoint| u.contains(y) implies y == x || t.contains(y) by {
            let i = choose|i: int| 0 <= i < u.len() && u[i] == y;
        }
    }
}

proof fn lemma_insert_keeps_ranked(t: Seq<ScoredPoint>, x: ScoredPoint)
    requires
        is_ranked(t),
        distinct_points(t),
        forall|i: int| 0 <= i < t.len() ==> #[trigger] t[i].idx != x.idx,
    ensures
        is_ranked(insert_ranked(t, x)),
        distinct_points(insert_ranked(t, x)),
    decreases t.len(),
{
    lemma_insert_len(t, x);
    lemma_insert_from(t, x);
    let u = insert_ranked(t, x);
    if t.len() == 0 {
    } else if ranks_before(x, t[0]) {
        assert forall|i: int| 0 <= i < u.len() - 1 implies ranks_before(#[trigger] u[i], u[i + 1]) by {
            if i > 0 {
                assert(u[i] == t[i - 1]);
                assert(u[i + 1] == t[i]);
            }
        }
        assert forall|i: int, j: int| 0 <= i < j < u.len() implies u[i].idx != u[j].idx by {
            assert(u[j] == t[j - 1]);
            if i > 0 {
                assert(u[i] == t[i - 1]);
            }
        }
    } else {
        let r = t.drop_first();
        assert forall|i: int| 0 <= i < r.len() - 1 implies ranks_before(#[trigger] r[i], r[i + 1]) by {
            assert(ranks_before(t[i + 1], t[i + 2]));
        }
        assert forall|i: int, j: int| 0 <= i < j < r.len() implies r[i].idx != r[j].idx by {
            assert(t[i + 1].idx != t[j + 1].idx);
        }
        assert forall|i: int| 0 <= i < r.len() implies #[trigger] r[i].idx != x.idx by {
            assert(t[i + 1].idx != x.idx);
        }
        lemma_insert_keeps_ranked(r, x);
        lemma_insert_from(r, x);
        lemma_insert_len(r, x);
        let ur = insert_ranked(r, x);
        assert(u == seq![t[0]] + ur);
        assert(ranks_before(t[0], x));
        if r.len() > 0 {
            assert(ranks_before(t[0], t[1]));
            assert(r[0] == t[1]);
        }
        assert(ranks_before(u[0], u[1]));
        assert forall|i: int| 0 <= i < u.len() - 1 implies ranks_before(#[trigger] u[i], u[i + 1]) by {
            if i > 0 {
                assert(u[i] == ur[i - 1]);
                assert(u[i + 1] == ur[i]);
            }
        }
        assert forall|i: int, j: int| 0 <= i < j < u.len() implies u[i].idx != u[j].idx by {
            assert(u[j] == ur[j - 1]);
            if i > 0 {
                assert(u[i] == ur[i - 1]);
            } else {
                assert(ur.contains(ur[j - 1]));
                if ur[j - 1] != x {
                    let i2 = choose|i2: int| 0 <= i2 < r.len() && r[i2] == ur[j - 1];
                    assert(t[i2 + 1] == ur[j - 1]);
                }
            }
        }
    }
}

/// The best `k` of a sequence without repeated points are ranked: each element
/// ranks before the next, and every element comes from the sequence.
pub proof fn lemma_top_k_ranked(s: Seq<ScoredPoint>, k: nat)
    requires
        distinct_points(s),
    ensures
        is_ranked(top_k(s, k)),
        distinct_points(top_k(s, k)),
        forall|y: ScoredPoint| #[trigger] top_k(s, k).contains(y) ==> s.contains(y),
    decreases s.len(),
{
    if s.len() > 0 {
        let r = s.drop_last();
        let x = s.last();
        assert forall|i: int, j: int| 0 <= i < j < r.len() implies r[i].idx != r[j].idx by {
            assert(s[i].idx != s[j].idx);
        }
        lemma_top_k_ranked(r, k);
        let t = top_k(r, k);
        assert forall|i: int| 0 <= i < t.len() implies #[trigger] t[i].idx != x.idx by {
            assert(t.contains(t[i]));
            let i2 = choose|i2: int| 0 <= i2 < r.len() && r[i2] == t[i];
            assert(s[i2].idx != s[s.len() - 1].idx);
        }
        lemma_insert_keeps_ranked(t, x);
        lemma_insert_from(t, x);
        let u = insert_ranked(t, x);
        assert forall|y: ScoredPoint| top_k(s, k).contains(y) implies s.contains(y) by {
            let i = choose|i: int| 0 <= i < top_k(s, k).len() && top_k(s, k)[i] == y;
            assert(u[i] == y);
            assert(u.contains(y));
            if y == x {
                assert(s[s.len() - 1] == y);
            } else {
                let i2 = choose|i2: int| 0 <= i2 < r.len() && r[i2] == y;
                assert(s[i2] == y);
            }
        }
        if u.len() > k {
            let v = u.take(k as int);
            assert forall|i: int| 0 <= i < v.len() - 1 implies ranks_before(#[trigger] v[i], v[i + 1]) by {
                assert(ranks_before(u[i], u[i + 1]));
            }
            assert forall|i: int, j: int| 0 <= i < j < v.len() implies v[i].idx != v[j].idx by {
                assert(u[i].idx != u[j].idx);
            }
        }
    }
}

proof fn lemma_ranked_pairwise(u: Seq<ScoredPoint>, i: int, j: int)
    requires
        is_ranked(u),
        0 <= i < j < u.len(),
    ensures
        ranks_before(u[i], u[j]),
    decreases j - i,
{
    if j > i + 1 {
        lemma_ranked_pairwise(u, i, j - 1);
        assert(ranks_before(u[j - 1], u[j]));
    } else {
        assert(ranks_before(u[i], u[i + 1]));
    }
}

/// An element of a ranked sequence that its first `k` leave out ranks after
/// each of them.
proof fn lemma_cut_ranks_before(u: Seq<ScoredPoint>, k: int, w: ScoredPoint)
    requires
        is_ranked(u),
        0 <= k < u.len(),
        u.contains(w),
        !u.take(k).contains(w),
    ensures
        forall|z: ScoredPoint| #[trigger] u.take(k).contains(z) ==> ranks_before(z, w),
{
    let j = choose|j: int| 0 <= j < u.len() && u[j] == w;
    if j < k {
        assert(u.take(k)[j] == w);
    }
    assert forall|z: ScoredPoint| #[trigger] u.take(k).contains(z) implies ranks_before(z, w) by {
        let i = choose|i: int| 0 <= i < k && u.take(k)[i] == z;
        lemma_ranked_pairwise(u, i, j);
    }
}

/// No better candidate is left out: an element of a sequence without repeated
/// points that its best `k` leave out comes after all of them, and there are
/// `k` of them.
pub proof fn lemma_top_k_keeps_best(s: Seq<ScoredPoint>, k: nat, y: ScoredPoint)
    requires
        distinct_points(s),
        s.contains(y),
        !top_k(s, k).contains(y),
    ensures
        top_k(s, k).len() == k,
        forall|z: ScoredPoint| #[trigger] top_k(s, k).contains(z) ==> ranks_before(z, y),
    decreases s.len(),
{
    let r = s.drop_last();
    let x = s.last();
    assert forall|i: int, j: int| 0 <= i < j < r.len() implies r[i].idx != r[j].idx by {
        assert(s[i].idx != s[j].idx);
    }
    lemma_top_k_ranked(r, k);
    lemma_top_k_len(r, k);
    let t = top_k(r, k);
    assert forall|i: int| 0 <= i < t.len() implies #[trigger] t[i].idx != x.idx by {
        assert(t.contains(t[i]));
        let i2 = choose|i2: int| 0 <= i2 < r.len() && r[i2] == t[i];
        assert(s[i2].idx != s[s.len() - 1].idx);
    }
    lemma_insert_keeps_ranked(t, x);
    lemma_insert_from(t, x);
    lemma_insert_contains(t, x);
    lemma_insert_len(t, x);
    let u = insert_ranked(t, x);
    let res = top_k(s, k);
    assert(res == if u.len() > k { u.take(k as int) } else { u });
    let iy = choose|i: int| 0 <= i < s.len() && s[i] == y;
    if y == x {
        lemma_cut_ranks_before(u, k as int, y);
    } else {
        assert(r[iy] == y);
        assert(r.contains(y));
        if t.contains(y) {
            lemma_cut_ranks_before(u, k as int, y);
        } else {
            lemma_top_k_keeps_best(r, k, y);
            assert(u.len() > k);
            assert forall|z: ScoredPoint| #[trigger] res.contains(z) implies ranks_before(z, y) by {
                let i = choose|i: int| 0 <= i < res.len() && res[i] == z;
                assert(u[i] == z);
                assert(u.contains(z));
                if z == x {
                    let w = u[k as int];
                    assert(u.contains(w));
                    lemma_ranked_pairwise(u, i, k as int);
                    if w == x {
                        assert(u[i].idx == u[k as int].idx);
                    }
                    assert(t.contains(w));
                }
            }
        }
    }
}

proof fn lemma_candidates_distinct(q: SparseVector, vs: Seq<SparseVector>, n: int)
    requires
        0 <= n <= vs.len(),
        vs.len() <= max_points(),
    ensures
        distinct_points(candidates(q, vs, n)),
        forall|i: int| 0 <= i < candidates(q, vs, n).len() ==> (#[trigger] candidates(q, vs, n)[i].idx as int) < n,
    decreases n,
{
    if n > 0 {
        lemma_candidates_distinct(q, vs, n - 1);
        let c0 = candidates(q, vs, n - 1);
        let c = candidates(q, vs, n);
        if shares(q, vs[n - 1]) {
            assert forall|i: int| 0 <= i < c.len() implies (#[trigger] c[i].idx as int) < n by {
                if i < c0.len() {
                    assert(c[i] == c0[i]);
                }
            }
            assert forall|i: int, j: int| 0 <= i < j < c.len() implies c[i].idx != c[j].idx by {
                assert(c[i] == c0[i]);
                if j < c0.len() {
                    assert(c[j] == c0[j]);
                }
            }
        }
    }
}

/// Answers are ranked: descending by score, ties by ascending offset, and no
/// point appears twice.
pub proof fn lemma_result_ranked(q: SparseVector, vs: Seq<SparseVector>, k: nat, filter: Option<Seq<bool>>)
    requires
        vs.len() <= max_points(),
    ensures
        is_ranked(filtered_result(q, vs, k, filter)),
        distinct_points(filtered_result(q, vs, k, filter)),
{
    let c = candidates(q, vs, vs.len() as int);
    lemma_candidates_distinct(q, vs, vs.len() as int);
    lemma_keep_subseq(c, filter);
    lemma_top_k_ranked(keep_admitted(c, filter), k);
}

/// Keeping the admitted elements keeps no two with the same point.
proof fn lemma_keep_subseq(c: Seq<ScoredPoint>, filter: Option<Seq<bool>>)
    requires
        distinct_points(c),
    ensures
        distinct_points(keep_admitted(c, filter)),
        forall|y: ScoredPoint| #[trigger] keep_admitted(c, filter).contains(y) ==> c.contains(y),
    decreases c.len(),
{
    if c.len() > 0 {
        let r = c.drop_last();
        assert forall|i: int, j: int| 0 <= i < j < r.len() implies r[i].idx != r[j].idx by {
            assert(c[i].idx != c[j].idx);
        }
        lemma_keep_subseq(r, filter);
        let kr = keep_admitted(r, filter);
        let kc = keep_admitted(c, filter);
        assert forall|y: ScoredPoint| kc.contains(y) implies c.contains(y) by {
            let i = choose|i: int| 0 <= i < kc.len() && kc[i] == y;
            if i < kr.len() {
                assert(kr[i] == y);
                assert(kr.contains(y));
                let i2 = choose|i2: int| 0 <= i2 < r.len() && r[i2] == y;
                assert(c[i2] == y);
            } else {
                assert(c[c.len() - 1] == y);
            }
        }
        if admits(filter, c.last().idx) {
            assert forall|i: int, j: int| 0 <= i < j < kc.len() implies kc[i].idx != kc[j].idx by {
                assert(kc[i] == kr[i]);
                if j < kr.len() {
                    assert(kc[j] == kr[j]);
                } else {
                    assert(kr.contains(kr[i]));
                    let i2 = choose|i2: int| 0 <= i2 < r.len() && r[i2] == kr[i];
                    assert(c[i2].idx != c[c.len() - 1].idx);
                }
            }
        }
    }
}

/// The best `k` of `candidates`: descending by score, ties by ascending offset.
pub fn select_top_k(candidates: &Vec<ScoredPoint>, k: usize) -> (r: Vec<ScoredPoint>)
    ensures
        r@ == top_k(candidates@, k as nat),
        r@.len() == if candidates@.len() < k { candidates@.len() as int } else { k as int },
        distinct_points(candidates@) ==> is_ranked(r@) && distinct_points(r@),
        distinct_points(candidates@) ==> forall|y: ScoredPoint, z: ScoredPoint|
            #[trigger] candidates@.contains(y) && !r@.contains(y) && #[trigger] r@.contains(z) ==> ranks_before(z, y),
{
    let mut r: Vec<ScoredPoint> = Vec::new();
    let mut n: usize = 0;
    while n < candidates.len()
        invariant
            n <= candidates@.len(),
            r@ == top_k(candidates@.take(n as int), k as nat),
        decreases candidates@.len() - n,
    {
        let x = candidates[n];
        let mut i: usize = 0;
        while i < r.len() && !(x.score > r[i].score || (x.score == r[i].score && x.idx < r[i].idx))
            invariant
                i <= r@.len(),
                forall|j: int| 0 <= j < i ==> !ranks_before(x, #[trigger] r@[j]),
            decreases r@.len() - i,
        {
            i = i + 1;
        }
        proof {
            lemma_insert_at(r@, x, i as int);
            let s = candidates@.take(n as int + 1);
            assert(s.drop_last() =~= candidates@.take(n as int));
            assert(s.last() == x);
        }
        r.insert(i, x);
        assert(r@ =~= insert_ranked(top_k(candidates@.take(n as int), k as nat), x));
        if r.len() > k {
            r.truncate(k);
        }
        proof {
            let s = candidates@.take(n as int + 1);
            assert(s.drop_last() =~= candidates@.take(n as int));
        }
        n = n + 1;
    }
    proof {
        assert(candidates@.take(n as int) =~= candidates@);
        lemma_top_k_len(candidates@, k as nat);
        if distinct_points(candidates@) {
            lemma_top_k_ranked(candidates@, k as nat);
            assert forall|y: ScoredPoint, z: ScoredPoint|
                #[trigger] candidates@.contains(y) && !r@.contains(y) && #[trigger] r@.contains(z) implies ranks_before(z, y) by {
                lemma_top_k_keeps_best(candidates@, k as nat, y);
            }
        }
    }
    r
}

/// The points among the first `n` of `vs` that share a dimension with `q`, in
/// offset order, each with its dot product.
pub open spec fn candidates(q: SparseVector, vs: Seq<SparseVector>, n: int) -> Seq<ScoredPoint>
    decreases n,
{
    if n <= 0 {
        Seq::empty()
    } else if shares(q, vs[n - 1]) {
        candidates(q, vs, n - 1).push(ScoredPoint { idx: (n - 1) as u32, score: dot(q, vs[n - 1]) as i64 })
    } else {
        candidates(q, vs, n - 1)
    }
}

/// The answer to a query over the stored vectors `vs`.
pub open spec fn search_result(q: SparseVector, vs: Seq<SparseVector>, k: nat) -> Seq<ScoredPoint> {
    top_k(candidates(q, vs, vs.len() as int), k)
}

/// The point `p` passes the filter: no filter, or one that marks `p` allowed.
pub open spec fn admits(filter: Option<Seq<bool>>, p: u32) -> bool {
    match filter {
        None => true,
        Some(f) => (p as int) < f.len() && f[p as int],
    }
}

/// The elements of `c` whose points pass the filter, in order.
pub open spec fn keep_admitted(c: Seq<ScoredPoint>, filter: Option<Seq<bool>>) -> Seq<ScoredPoint>
    decreases c.len(),
{
    if c.len() == 0 {
        Seq::empty()
    } else {
        let r = keep_admitted(c.drop_last(), filter);
        if admits(filter, c.last().idx) {
            r.push(c.last())
        } else {
            r
        }
    }
}

pub open spec fn filter_view(filter: Option<&Vec<bool>>) -> Option<Seq<bool>> {
    match filter {
        None => None,
        Some(f) => Some(f@),
    }
}

/// The answer to a query over the stored vectors `vs`, among the points that
/// pass the filter.
pub open spec fn filtered_result(q: SparseVector, vs: Seq<SparseVector>, k: nat, filter: Option<Seq<bool>>) -> Seq<ScoredPoint> {
    top_k(keep_admitted(candidates(q, vs, vs.len() as int), filter), k)
}

/// Without a filter every element is kept.
pub proof fn lemma_keep_all(c: Seq<ScoredPoint>)
    ensures
        keep_admitted(c, None) == c,
    decreases c.len(),
{
    if c.len() > 0 {
        lemma_keep_all(c.drop_last());
        assert(c.drop_last().push(c.last()) =~= c);
    }
}

/// The candidates whose points the filter allows, where `filter[p]` marks point
/// `p` allowed (points past its end are not).
pub fn keep_admitted_points(c: &Vec<ScoredPoint>, filter: Option<&Vec<bool>>) -> (r: Vec<ScoredPoint>)
    ensures
        r@ == keep_admitted(c@, filter_view(filter)),
{
    let mut r: Vec<ScoredPoint> = Vec::new();
    let mut i: usize = 0;
    while i < c.len()
        invariant
            i <= c@.len(),
            r@ == keep_admitted(c@.take(i as int), filter_view(filter)),
        decreases c@.len() - i,
    {
        let x = c[i];
        let ok = match filter {
            None => true,
            Some(f) => (x.idx as usize) < f.len() && f[x.idx as usize],
        };
        proof {
            let t = c@.take(i + 1);
            assert(t.drop_last() =~= c@.take(i as int));
            assert(t.last() == x);
        }
        if ok {
            r.push(x);
        }
        i = i + 1;
    }
    assert(c@.take(i as int) =~= c@);
    r
}

/// Scores every stored vector against `query`, without posting lists. The flag
/// `stopped` is polled once per batch of vectors.
pub fn full_scan_candidates(
    query: &SparseVector,
    vectors: &Vec<SparseVector>,
    stopped: &AtomicBool,
) -> (r: Result<Vec<ScoredPoint>, IndexError>)
    requires
        query.wf(),
        all_wf(vectors@),
        vectors@.len() <= max_points(),
    ensures
        r matches Ok(c) ==> c@ == candidates(*query, vectors@, vectors@.len() as int),
        r matches Err(e) ==> e == IndexError::Cancelled,
        vectors@.len() == 0 ==> r is Ok,
{
    let mut out: Vec<ScoredPoint> = Vec::new();
    let mut p: usize = 0;
    while p < vectors.len()
        invariant
            query.wf(),
            all_wf(vectors@),
            vectors@.len() <= max_points(),
            p <= vectors@.len(),
            out@ == candidates(*query, vectors@, p as int),
        decreases vectors@.len() - p,
    {
        if p % BUILD_BATCH == 0 && stopped.load(Ordering::Relaxed) {
            return Err(IndexError::Cancelled);
        }
        let v = &vectors[p];
        assert(v.wf());
        let shared = shares_any(query, v);
        if shared {
            let s = query.dot(v);
            out.push(ScoredPoint { idx: p as u32, score: s });
        }
        p = p + 1;
    }
    Ok(out)
}

/// Whether the two vectors have a dimension in common.
pub fn shares_any(q: &SparseVector, v: &SparseVector) -> (r: bool)
    requires
        q.wf(),
        v.wf(),
    ensures
        r == shares(*q, *v),
{
    let mut i: usize = 0;
    while i < q.indices.len()
        invariant
            q.wf(),
            v.wf(),
            i <= q.len(),
            !shares_prefix(*q, *v, i as int),
        decreases q.len() - i,
    {
        if v.get(q.indices[i]).is_some() {
            return true;
        }
        i = i + 1;
    }
    false
}

/// List `ps` holds point `p` among its first `j` entries.
pub open spec fn in_prefix(ps: Seq<PostingElement>, j: int, p: int) -> bool {
    exists|jj: int| 0 <= jj < j && ps[jj].record_id as int == p
}

/// Accumulates, for every point, its score against `query` over the posting
/// lists of the query's dimensions, and emits the points that some list holds.
pub(crate) fn index_scan_candidates(
    query: &SparseVector,
    index: &InvertedIndexRam,
    n: usize,
    Ghost(vs): Ghost<Seq<SparseVector>>,
) -> (r: Vec<ScoredPoint>)
    requires
        query.wf(),
        all_wf(vs),
        index.indexes(vs),
        n == vs.len(),
        n <= max_points(),
    ensures
        r@ == candidates(*query, vs, n as int),
        r@ == index_candidates(*query, index.view_postings(), n as int),
{
    proof {
        lemma_index_candidates(*query, index.view_postings(), vs, n as int);
    }
    proof {
        lemma_ascending_len(query.indices@);
    }
    let mut scores: Vec<i64> = Vec::new();
    let mut touched: Vec<bool> = Vec::new();
    let mut p: usize = 0;
    while p < n
        invariant
            p <= n,
            scores@.len() == p,
            touched@.len() == p,
            forall|t: int| 0 <= t < p ==> scores@[t] == 0 && !touched@[t],
        decreases n - p,
    {
        scores.push(0);
        touched.push(false);
        p = p + 1;
    }
    let ghost ps = index.view_postings();
    let mut i: usize = 0;
    while i < query.indices.len()
        invariant
            query.wf(),
            all_wf(vs),
            index.indexes(vs),
            ps == index.view_postings(),
            n == vs.len(),
            query.len() <= 0x1_0000_0000,
            i <= query.len(),
            scores@.len() == n,
            touched@.len() == n,
            forall|t: int| 0 <= t < n ==> #[trigger] scores@[t] == dot_prefix(*query, vs[t], i as int),
            forall|t: int| 0 <= t < n ==> #[trigger] touched@[t] == shares_prefix(*query, vs[t], i as int),
        decreases query.len() - i,
    {
        let d = query.indices[i];
        let wq = query.weights[i];
        let list = index.posting_list(d);
        let ghost lst = list@;
        let mut j: usize = 0;
        while j < list.len()
            invariant
                query.wf(),
                all_wf(vs),
                index.indexes(vs),
                ps == index.view_postings(),
                n == vs.len(),
                query.len() <= 0x1_0000_0000,
                i < query.len(),
                d == query.indices@[i as int],
                wq == query.weights@[i as int],
                (d as int) < ps.len() ==> lst == ps[d as int],
                (d as int) >= ps.len() ==> lst.len() == 0,
                list@ == lst,
                j <= lst.len(),
                scores@.len() == n,
                touched@.len() == n,
                forall|t: int| 0 <= t < n ==> #[trigger] scores@[t] == dot_prefix(*query, vs[t], i as int)
                    + if in_prefix(lst, j as int, t) { wq * vs[t].weight_at(d) } else { 0 },
                forall|t: int| 0 <= t < n ==> #[trigger] touched@[t] == (shares_prefix(*query, vs[t], i as int)
                    || in_prefix(lst, j as int, t)),
            decreases lst.len() - j,
        {
            let e = list[j];
            let t = e.record_id as usize;
            proof {
                assert(ps[d as int][j as int] == e);
                assert(covers(vs, n as int, 0, t as int, d));
                assert(e.weight as int == vs[t as int].weight_at(d));
                assert(!in_prefix(lst, j as int, t as int)) by {
                    if in_prefix(lst, j as int, t as int) {
                        let jj = choose|jj: int| 0 <= jj < j && lst[jj].record_id as int == t;
                        assert(ps[d as int][jj].record_id < ps[d as int][j as int].record_id);
                    }
                }
                lemma_product_bound(wq, e.weight as int);
                assert(vs[t as int].wf());
                lemma_dot_prefix_bound(*query, vs[t as int], i as int);
                assert(scores@[t as int] == dot_prefix(*query, vs[t as int], i as int));
                assert(-i * product_bound() <= scores@[t as int] <= i * product_bound());
                assert(i * product_bound() <= 0x1_0000_0000 * product_bound()) by (nonlinear_arith)
                    requires i <= 0x1_0000_0000int;
                assert forall|u: int| 0 <= u < n implies in_prefix(lst, j as int + 1, u) == (in_prefix(lst, j as int, u) || u == t) by {
                    if u == t {
                        assert(lst[j as int].record_id as int == u);
                    }
                    if in_prefix(lst, j as int + 1, u) && u != t {
                        let jj = choose|jj: int| 0 <= jj < j + 1 && lst[jj].record_id as int == u;
                        assert(jj < j);
                    }
                }
            }
            let old_score = scores[t];
            scores.set(t, old_score + (wq as i64) * (e.weight as i64));
            touched.set(t, true);
            j = j + 1;
        }
        proof {
            assert forall|t: int| 0 <= t < n implies in_prefix(lst, lst.len() as int, t) == vs[t].has_dim(d) by {
                if in_prefix(lst, lst.len() as int, t) {
                    let jj = choose|jj: int| 0 <= jj < lst.len() && lst[jj].record_id as int == t;
                    assert(ps[d as int][jj] == lst[jj]);
                }
                if vs[t].has_dim(d) {
                    assert(covers(vs, n as int, 0, t, d));
                    let jj = choose|jj: int| 0 <= jj < ps[d as int].len() && ps[d as int][jj].record_id == t;
                    assert(lst[jj].record_id as int == t);
                }
            }
            assert forall|t: int| 0 <= t < n implies #[trigger] touched@[t] == shares_prefix(*query, vs[t], i + 1) by {
                if shares_prefix(*query, vs[t], i as int) {
                    let ii = choose|ii: int| 0 <= ii < i && vs[t].has_dim(query.indices@[ii]);
                    assert(0 <= ii < i + 1 && vs[t].has_dim(query.indices@[ii]));
                }
                if vs[t].has_dim(d) {
                    assert(0 <= i < i + 1 && vs[t].has_dim(query.indices@[i as int]));
                }
                if shares_prefix(*query, vs[t], i + 1) {
                    let ii = choose|ii: int| 0 <= ii < i + 1 && vs[t].has_dim(query.indices@[ii]);
                    if ii < i {
                        assert(shares_prefix(*query, vs[t], i as int));
                    }
                }
            }
        }
        i = i + 1;
    }
    let mut out: Vec<ScoredPoint> = Vec::new();
    let mut p: usize = 0;
    while p < n
        invariant
            n == vs.len(),
            n <= max_points(),
            p <= n,
            scores@.len() == n,
            touched@.len() == n,
            forall|t: int| 0 <= t < n ==> #[trigger] scores@[t] == dot_prefix(*query, vs[t], query.len()),
            forall|t: int| 0 <= t < n ==> #[trigger] touched@[t] == shares_prefix(*query, vs[t], query.len()),
            out@ == candidates(*query, vs, p as int),
        decreases n - p,
    {
        if touched[p] {
            out.push(ScoredPoint { idx: p as u32, score: scores[p] });
        }
        p = p + 1;
    }
    out
}

/// List `d` of `ps` holds point `t`.
pub open spec fn posting_holds(ps: Seq<Seq<PostingElement>>, d: u32, t: int) -> bool {
    (d as int) < ps.len() && exists|j: int| 0 <= j < ps[d as int].len() && ps[d as int][j].record_id as int == t
}

/// The weight that list `d` of `ps` gives point `t`; zero where it has none.
pub open spec fn posting_weight(ps: Seq<Seq<PostingElement>>, d: u32, t: int) -> int {
    if posting_holds(ps, d, t) {
        ps[d as int][choose|j: int| 0 <= j < ps[d as int].len() && ps[d as int][j].record_id as int == t].weight as int
    } else {
        0
    }
}

/// Score of point `t` accumulated over the lists of the first `n` dimensions of `q`.
pub open spec fn posting_score(q: SparseVector, ps: Seq<Seq<PostingElement>>, t: int, n: int) -> int
    decreases n,
{
    if n <= 0 {
        0
    } else {
        posting_score(q, ps, t, n - 1) + q.weights@[n - 1] * posting_weight(ps, q.indices@[n - 1], t)
    }
}

/// Some list of a dimension of `q` holds point `t`.
pub open spec fn posting_touched(q: SparseVector, ps: Seq<Seq<PostingElement>>, t: int) -> bool {
    exists|i: int| 0 <= i < q.len() && posting_holds(ps, q.indices@[i], t)
}

/// The points below `n` that the lists of `q`'s dimensions hold, in offset
/// order, each with its accumulated score.
pub open spec fn index_candidates(q: SparseVector, ps: Seq<Seq<PostingElement>>, n: int) -> Seq<ScoredPoint>
    decreases n,
{
    if n <= 0 {
        Seq::empty()
    } else if posting_touched(q, ps, n - 1) {
        index_candidates(q, ps, n - 1).push(
            ScoredPoint { idx: (n - 1) as u32, score: posting_score(q, ps, n - 1, q.len()) as i64 },
        )
    } else {
        index_candidates(q, ps, n - 1)
    }
}

proof fn lemma_posting_entry(ps: Seq<Seq<PostingElement>>, vs: Seq<SparseVector>, d: u32, t: int)
    requires
        index_matches(ps, vs),
        0 <= t < vs.len(),
    ensures
        posting_holds(ps, d, t) == vs[t].has_dim(d),
        posting_weight(ps, d, t) == vs[t].weight_at(d),
{
    if posting_holds(ps, d, t) {
        let j = choose|j: int| 0 <= j < ps[d as int].len() && ps[d as int][j].record_id as int == t;
        assert(covers(vs, vs.len() as int, 0, t, d));
    }
    if vs[t].has_dim(d) {
        assert(covers(vs, vs.len() as int, 0, t, d));
        let j = choose|j: int| 0 <= j < ps[d as int].len() && ps[d as int][j].record_id == t;
        assert(ps[d as int][j].record_id as int == t);
    }
}

proof fn lemma_posting_score(q: SparseVector, ps: Seq<Seq<PostingElement>>, vs: Seq<SparseVector>, t: int, n: int)
    requires
        index_matches(ps, vs),
        0 <= t < vs.len(),
        0 <= n <= q.len(),
    ensures
        posting_score(q, ps, t, n) == dot_prefix(q, vs[t], n),
    decreases n,
{
    if n > 0 {
        lemma_posting_score(q, ps, vs, t, n - 1);
        lemma_posting_entry(ps, vs, q.indices@[n - 1], t);
    }
}

proof fn lemma_index_candidates(q: SparseVector, ps: Seq<Seq<PostingElement>>, vs: Seq<SparseVector>, n: int)
    requires
        index_matches(ps, vs),
        0 <= n <= vs.len(),
    ensures
        index_candidates(q, ps, n) == candidates(q, vs, n),
    decreases n,
{
    if n > 0 {
        let t = n - 1;
        lemma_index_candidates(q, ps, vs, t);
        lemma_posting_score(q, ps, vs, t, q.len());
        assert forall|i: int| 0 <= i < q.len() implies posting_holds(ps, q.indices@[i], t) == vs[t].has_dim(q.indices@[i]) by {
            lemma_posting_entry(ps, vs, q.indices@[i], t);
        }
        if posting_touched(q, ps, t) {
            let i = choose|i: int| 0 <= i < q.len() && posting_holds(ps, q.indices@[i], t);
            assert(shares_prefix(q, vs[t], q.len()));
        }
        if shares(q, vs[t]) {
            let i = choose|i: int| 0 <= i < q.len() && vs[t].has_dim(q.indices@[i]);
            assert(posting_holds(ps, q.indices@[i], t));
        }
    }
}

/// Index-accelerated and full-scan answers agree: over posting lists that hold
/// exactly the stored vectors, the best `k` points accumulated from the lists
/// of the query's dimensions are the best `k` points found by scoring every
/// stored vector, in the same order and with the same scores, with or without
/// a filter.
pub proof fn lemma_index_scan_agrees(
    q: SparseVector,
    ps: Seq<Seq<PostingElement>>,
    vs: Seq<SparseVector>,
    k: nat,
    filter: Option<Seq<bool>>,
)
    requires
        index_matches(ps, vs),
    ensures
        top_k(index_candidates(q, ps, vs.len() as int), k) == search_result(q, vs, k),
        top_k(keep_admitted(index_candidates(q, ps, vs.len() as int), filter), k) == filtered_result(q, vs, k, filter),
{
    lemma_index_candidates(q, ps, vs, vs.len() as int);
}

/// Sum of the squared weights of the first `n` entries of `v`.
pub open spec fn norm_sq_prefix(v: SparseVector, n: int) -> int
    decreases n,
{
    if n <= 0 {
        0
    } else {
        norm_sq_prefix(v, n - 1) + v.weights@[n - 1] * v.weights@[n - 1]
    }
}

/// The squared norm of `v`.
pub open spec fn norm_sq(v: SparseVector) -> int {
    norm_sq_prefix(v, v.len())
}

proof fn lemma_dot_self(v: SparseVector, n: int)
    requires
        v.wf(),
        0 <= n <= v.len(),
    ensures
        dot_prefix(v, v, n) == norm_sq_prefix(v, n),
    decreases n,
{
    if n > 0 {
        lemma_dot_self(v, n - 1);
        lemma_weight_at_index(v, n - 1);
    }
}

proof fn lemma_insert_contains(t: Seq<ScoredPoint>, x: ScoredPoint)
    ensures
        insert_ranked(t, x).contains(x),
        forall|y: ScoredPoint| t.contains(y) ==> insert_ranked(t, x).contains(y),
    decreases t.len(),
{
    lemma_insert_len(t, x);
    if t.len() == 0 {
        assert(insert_ranked(t, x)[0] == x);
    } else if ranks_before(x, t[0]) {
        assert(insert_ranked(t, x)[0] == x);
        assert forall|y: ScoredPoint| t.contains(y) implies insert_ranked(t, x).contains(y) by {
            let i = choose|i: int| 0 <= i < t.len() && t[i] == y;
            assert(insert_ranked(t, x)[i + 1] == y);
        }
    } else {
        let r = t.drop_first();
        lemma_insert_contains(r, x);
        let u = insert_ranked(t, x);
        assert(u == seq![t[0]] + insert_ranked(r, x));
        let i0 = choose|i: int| 0 <= i < insert_ranked(r, x).len() && insert_ranked(r, x)[i] == x;
        assert(u[i0 + 1] == x);
        assert forall|y: ScoredPoint| t.contains(y) implies u.contains(y) by {
            let i = choose|i: int| 0 <= i < t.len() && t[i] == y;
            if i == 0 {
                assert(u[0] == y);
            } else {
                assert(r[i - 1] == y);
                assert(r.contains(y));
                let i2 = choose|i2: int| 0 <= i2 < insert_ranked(r, x).len() && insert_ranked(r, x)[i2] == y;
                assert(u[i2 + 1] == y);
            }
        }
    }
}

proof fn lemma_top_k_keeps_all(s: Seq<ScoredPoint>, k: nat)
    requires
        s.len() <= k,
    ensures
        forall|y: ScoredPoint| s.contains(y) ==> top_k(s, k).contains(y),
    decreases s.len(),
{
    if s.len() > 0 {
        let r = s.drop_last();
        lemma_top_k_keeps_all(r, k);
        lemma_top_k_len(r, k);
        lemma_insert_len(top_k(r, k), s.last());
        lemma_insert_contains(top_k(r, k), s.last());
        assert forall|y: ScoredPoint| s.contains(y) implies top_k(s, k).contains(y) by {
            let i = choose|i: int| 0 <= i < s.len() && s[i] == y;
            if i < s.len() - 1 {
                assert(r[i] == y);
                assert(r.contains(y));
            }
        }
    }
}

proof fn lemma_candidates_hold(q: SparseVector, vs: Seq<SparseVector>, n: int, p: int)
    requires
        0 <= p < n <= vs.len(),
        shares(q, vs[p]),
    ensures
        candidates(q, vs, n).contains(ScoredPoint { idx: p as u32, score: dot(q, vs[p]) as i64 }),
    decreases n,
{
    let x = ScoredPoint { idx: p as u32, score: dot(q, vs[p]) as i64 };
    if p == n - 1 {
        assert(candidates(q, vs, n).last() == x);
    } else {
        lemma_candidates_hold(q, vs, n - 1, p);
        let c = candidates(q, vs, n - 1);
        let i = choose|i: int| 0 <= i < c.len() && c[i] == x;
        assert(candidates(q, vs, n)[i] == x);
    }
}

/// A stored vector that is not empty, searched with itself as the query, is
/// found with its squared norm as its score, whenever `k` leaves room for every
/// point that shares a dimension with it.
pub proof fn lemma_self_query(vs: Seq<SparseVector>, p: int, k: nat)
    requires
        all_wf(vs),
        0 <= p < vs.len(),
        vs[p].len() > 0,
        candidates(vs[p], vs, vs.len() as int).len() <= k,
    ensures
        search_result(vs[p], vs, k).contains(ScoredPoint { idx: p as u32, score: norm_sq(vs[p]) as i64 }),
{
    let v = vs[p];
    assert(v.wf());
    lemma_dot_self(v, v.len());
    lemma_weight_at_index(v, 0);
    assert(shares_prefix(v, v, v.len()));
    lemma_candidates_hold(v, vs, vs.len() as int, p);
    lemma_top_k_keeps_all(candidates(v, vs, vs.len() as int), k);
}

proof fn lemma_candidates_skip_empty(q: SparseVector, vs: Seq<SparseVector>, n: int, p: int)
    requires
        0 <= p < vs.len(),
        vs[p].len() == 0,
        0 <= n <= vs.len(),
        vs.len() <= max_points(),
    ensures
        forall|i: int| 0 <= i < candidates(q, vs, n).len() ==> #[trigger] candidates(q, vs, n)[i].idx as int != p,
    decreases n,
{
    if n > 0 {
        lemma_candidates_skip_empty(q, vs, n - 1, p);
        let c0 = candidates(q, vs, n - 1);
        let c1 = candidates(q, vs, n);
        if n - 1 == p {
            assert(!shares(q, vs[p]));
            assert(c1 == c0);
        } else if shares(q, vs[n - 1]) {
            assert forall|i: int| 0 <= i < c1.len() implies #[trigger] c1[i].idx as int != p by {
                if i < c0.len() {
                    assert(c1[i] == c0[i]);
                }
            }
        }
    }
}

/// A point whose vector is empty is in no posting list, and no query finds it:
/// it is left out of the answer rather than given a score of zero.
pub proof fn lemma_empty_vector_unreachable(ps: Seq<Seq<PostingElement>>, vs: Seq<SparseVector>, q: SparseVector, p: int, k: nat)
    requires
        index_matches(ps, vs),
        vs.len() <= max_points(),
        0 <= p < vs.len(),
        vs[p].len() == 0,
    ensures
        forall|d: u32| !#[trigger] posting_holds(ps, d, p),
        forall|i: int| 0 <= i < candidates(q, vs, vs.len() as int).len()
            ==> #[trigger] candidates(q, vs, vs.len() as int)[i].idx as int != p,
{
    assert forall|d: u32| !#[trigger] posting_holds(ps, d, p) by {
        lemma_posting_entry(ps, vs, d, p);
    }
    lemma_candidates_skip_empty(q, vs, vs.len() as int, p);
}

} // verus!
