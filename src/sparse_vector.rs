use vstd::prelude::*;

verus! {

/// Errors raised by the sparse index library.
#[derive(Debug, Clone, Copy, PartialEq, Eq, Structural)]
pub enum IndexError {
    /// Indices are not strictly ascending, or indices and weights differ in length.
    MalformedVector,
    /// A build or a search observed the cancellation flag.
    Cancelled,
    /// A point offset past the end of the storage (more than one past the last point).
    OffsetOutOfRange,
}

/// Largest magnitude of a single weight, as an integer.
pub open spec fn weight_bound() -> int {
    0x8000
}

/// Largest magnitude of one weight-by-weight product.
pub open spec fn product_bound() -> int {
    0x4000_0000
}

pub open spec fn strictly_ascending(s: Seq<u32>) -> bool {
    forall|i: int, j: int| 0 <= i < j < s.len() ==> s[i] < s[j]
}

/// A sparse embedding: the nonzero coordinates of a vector, as parallel lists of
/// dimension indices (strictly ascending) and weights.
#[derive(Debug, Clone)]
pub struct SparseVector {
    pub indices: Vec<u32>,
    pub weights: Vec<i16>,
}

impl SparseVector {
    pub open spec fn wf(&self) -> bool {
        &&& self.indices@.len() == self.weights@.len()
        &&& strictly_ascending(self.indices@)
    }

    pub open spec fn len(&self) -> int {
        self.indices@.len() as int
    }

    /// The vector has an entry for dimension `d`.
    pub open spec fn has_dim(&self, d: u32) -> bool {
        exists|k: int| 0 <= k < self.indices@.len() && self.indices@[k] == d
    }

    /// The weight of dimension `d`; zero where the vector has no entry for it.
    pub open spec fn weight_at(&self, d: u32) -> int {
        if self.has_dim(d) {
            self.weights@[choose|k: int| 0 <= k < self.indices@.len() && self.indices@[k] == d] as int
        } else {
            0
        }
    }

    /// Builds a vector from indices and weights; fails where the indices are not
    /// strictly ascending or the two lists differ in length.
    pub fn new(indices: Vec<u32>, weights: Vec<i16>) -> (r: Result<SparseVector, IndexError>)
        ensures
            r.is_ok() <==> (indices@.len() == weights@.len() && strictly_ascending(indices@)),
            r matches Ok(v) ==> v.indices@ == indices@ && v.weights@ == weights@ && v.wf(),
            r matches Err(e) ==> e == IndexError::MalformedVector,
    {
        if indices.len() != weights.len() {
            return Err(IndexError::MalformedVector);
        }
        let mut i: usize = 1;
        while i < indices.len()
            invariant
                1 <= i,
                indices@.len() > 0 ==> i <= indices@.len(),
                forall|a: int, b: int| 0 <= a < b < i && b < indices@.len() ==> indices@[a] < indices@[b],
            decreases indices@.len() - i,
        {
            if indices[i - 1] >= indices[i] {
                return Err(IndexError::MalformedVector);
            }
            proof {
                assert forall|a: int, b: int| 0 <= a < b < i + 1 && b < indices@.len() implies indices@[a] < indices@[b] by {
                    if b == i && a < i - 1 {
                        assert(indices@[a] < indices@[i - 1]);
                    }
                }
            }
            i = i + 1;
        }
        Ok(SparseVector { indices, weights })
    }

    /// The empty vector: no entries.
    pub fn empty() -> (r: SparseVector)
        ensures
            r.wf(),
            r.len() == 0,
    {
        SparseVector { indices: Vec::new(), weights: Vec::new() }
    }

    /// Whether the vector has no entries.
    pub fn is_empty(&self) -> (r: bool)
        ensures
            r == (self.indices@.len() == 0),
    {
        self.indices.len() == 0
    }

    /// The weight stored for dimension `d`, if the vector has an entry for it.
    pub fn get(&self, d: u32) -> (r: Option<i16>)
        requires
            self.wf(),
        ensures
            r.is_some() == self.has_dim(d),
            r matches Some(w) ==> w as int == self.weight_at(d),
    {
        let mut k: usize = 0;
        while k < self.indices.len()
            invariant
                self.wf(),
                k <= self.indices@.len(),
                forall|j: int| 0 <= j < k ==> self.indices@[j] != d,
            decreases self.indices@.len() - k,
        {
            if self.indices[k] == d {
                proof {
                    let c = choose|c: int| 0 <= c < self.indices@.len() && self.indices@[c] == d;
                    if c < k as int {
                    } else if c > k as int {
                        assert(self.indices@[k as int] < self.indices@[c]);
                    }
                }
                return Some(self.weights[k]);
            }
            k = k + 1;
        }
        None
    }
}

/// The weight of the dimension at position `k` is the `k`-th weight.
pub proof fn lemma_weight_at_index(v: SparseVector, k: int)
    requires
        v.wf(),
        0 <= k < v.len(),
    ensures
        v.has_dim(v.indices@[k]),
        v.weight_at(v.indices@[k]) == v.weights@[k] as int,
{
    let d = v.indices@[k];
    assert(v.has_dim(d));
    let c = choose|c: int| 0 <= c < v.indices@.len() && v.indices@[c] == d;
    if c < k {
        assert(v.indices@[c] < v.indices@[k]);
    } else if c > k {
        assert(v.indices@[k] < v.indices@[c]);
    }
}

/// A strictly ascending sequence of `u32` has at most 2^32 elements.
pub proof fn lemma_ascending_len(s: Seq<u32>)
    requires
        strictly_ascending(s),
    ensures
        s.len() <= 0x1_0000_0000,
{
    assert forall|i: int| 0 <= i < s.len() implies s[i] >= i by {
        lemma_ascending_at_least(s, i);
    }
    if s.len() > 0x1_0000_0000 {
        assert(s[0x1_0000_0000int] >= 0x1_0000_0000);
    }
}

proof fn lemma_ascending_at_least(s: Seq<u32>, i: int)
    requires
        strictly_ascending(s),
        0 <= i < s.len(),
    ensures
        s[i] >= i,
    decreases i,
{
    if i > 0 {
        lemma_ascending_at_least(s, i - 1);
    }
}

/// Sum of the products over the first `n` entries of `q`.
pub open spec fn dot_prefix(q: SparseVector, v: SparseVector, n: int) -> int
    decreases n,
{
    if n <= 0 {
        0
    } else {
        dot_prefix(q, v, n - 1) + q.weights@[n - 1] * v.weight_at(q.indices@[n - 1])
    }
}

/// The dot product of two sparse vectors.
pub open spec fn dot(q: SparseVector, v: SparseVector) -> int {
    dot_prefix(q, v, q.len())
}

/// One of the first `n` dimensions of `q` is present in `v`.
pub open spec fn shares_prefix(q: SparseVector, v: SparseVector, n: int) -> bool {
    exists|i: int| 0 <= i < n && v.has_dim(q.indices@[i])
}

/// The two vectors have a dimension in common.
pub open spec fn shares(q: SparseVector, v: SparseVector) -> bool {
    shares_prefix(q, v, q.len())
}

pub proof fn lemma_product_bound(a: i16, b: int)
    requires
        -weight_bound() <= b < weight_bound(),
    ensures
        -product_bound() <= a * b <= product_bound(),
{
    assert(-product_bound() <= a * b <= product_bound()) by (nonlinear_arith)
        requires
            -0x8000 <= a < 0x8000,
            -0x8000 <= b < 0x8000;
}

pub proof fn lemma_weight_at_bound(v: SparseVector, d: u32)
    requires
        v.wf(),
    ensures
        -weight_bound() <= v.weight_at(d) < weight_bound(),
{
}

pub proof fn lemma_dot_prefix_bound(q: SparseVector, v: SparseVector, n: int)
    requires
        q.wf(),
        v.wf(),
        0 <= n <= q.len(),
    ensures
        -n * product_bound() <= dot_prefix(q, v, n) <= n * product_bound(),
    decreases n,
{
    if n > 0 {
        lemma_dot_prefix_bound(q, v, n - 1);
        lemma_weight_at_bound(v, q.indices@[n - 1]);
        lemma_product_bound(q.weights@[n - 1], v.weight_at(q.indices@[n - 1]));
    }
}

impl SparseVector {
    /// Dot product with `other`.
    pub fn dot(&self, other: &SparseVector) -> (r: i64)
        requires
            self.wf(),
            other.wf(),
        ensures
            r == dot(*self, *other),
    {
        proof {
            lemma_ascending_len(self.indices@);
        }
        let mut acc: i64 = 0;
        let mut i: usize = 0;
        while i < self.indices.len()
            invariant
                self.wf(),
                other.wf(),
                self.len() <= 0x1_0000_0000,
                i <= self.len(),
                acc == dot_prefix(*self, *other, i as int),
                -i * product_bound() <= acc <= i * product_bound(),
            decreases self.len() - i,
        {
            let d = self.indices[i];
            match other.get(d) {
                Some(w) => {
                    proof {
                        lemma_product_bound(self.weights@[i as int], w as int);
                    }
                    acc = acc + (self.weights[i] as i64) * (w as i64);
                },
                None => {},
            }
            i = i + 1;
        }
        acc
    }
}

} // verus!
