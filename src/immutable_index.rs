use vstd::prelude::*;

use crate::inverted_index::InvertedIndexRam;
use crate::inverted_index::PostingElement;

verus! {

/// Compacted inverted index: all posting lists laid end to end in one array,
/// list `d` being `elements[offsets[d]..offsets[d + 1]]`.
pub struct InvertedIndexImmutableRam {
    pub offsets: Vec<usize>,
    pub elements: Vec<PostingElement>,
    pub vector_count: usize,
}

impl InvertedIndexImmutableRam {
    pub open spec fn wf(&self) -> bool {
        &&& self.offsets@.len() >= 1
        &&& self.offsets@[0] == 0
        &&& forall|d: int| 0 <= d < self.offsets@.len() - 1 ==> #[trigger] self.offsets@[d] <= self.offsets@[d + 1]
        &&& self.offsets@.last() == self.elements@.len()
    }

    /// The posting lists, one per dimension.
    pub open spec fn view_postings(&self) -> Seq<Seq<PostingElement>> {
        Seq::new(
            (self.offsets@.len() - 1) as nat,
            |d: int| self.elements@.subrange(self.offsets@[d] as int, self.offsets@[d + 1] as int),
        )
    }

    /// Lays the lists of `ram` end to end.
    pub fn from_ram(ram: &InvertedIndexRam) -> (r: InvertedIndexImmutableRam)
        ensures
            r.wf(),
            r.view_postings() == ram.view_postings(),
            r.vector_count == ram.vector_count,
    {
        let ghost ps = ram.view_postings();
        let mut offsets: Vec<usize> = Vec::new();
        let mut elements: Vec<PostingElement> = Vec::new();
        offsets.push(0);
        let mut d: usize = 0;
        while d < ram.postings.len()
            invariant
                ps == ram.view_postings(),
                d <= ps.len(),
                offsets@.len() == d + 1,
                offsets@[0] == 0,
                forall|i: int| 0 <= i < d ==> #[trigger] offsets@[i] <= offsets@[i + 1],
                offsets@[d as int] == elements@.len(),
                forall|i: int| 0 <= i < d ==> #[trigger] elements@.subrange(offsets@[i] as int, offsets@[i + 1] as int) == ps[i],
            decreases ps.len() - d,
        {
            let list = &ram.postings[d];
            let ghost start = elements@;
            let mut j: usize = 0;
            while j < list.len()
                invariant
                    j <= list@.len(),
                    elements@.len() == start.len() + j,
                    elements@.subrange(0, start.len() as int) == start,
                    elements@.subrange(start.len() as int, elements@.len() as int) == list@.subrange(0, j as int),
                decreases list@.len() - j,
            {
                elements.push(list[j]);
                assert(elements@.subrange(0, start.len() as int) =~= start);
                assert(elements@.subrange(start.len() as int, elements@.len() as int) =~= list@.subrange(0, j + 1));
                j = j + 1;
            }
            let end = elements.len();
            proof {
                assert forall|i: int| 0 <= i < d implies #[trigger] elements@.subrange(offsets@[i] as int, offsets@[i + 1] as int) == ps[i] by {
                    assert(offsets@[i] <= offsets@[i + 1]);
                    lemma_offsets_below(offsets@, d as int, i);
                    assert(elements@.subrange(offsets@[i] as int, offsets@[i + 1] as int)
                        =~= start.subrange(offsets@[i] as int, offsets@[i + 1] as int));
                }
                assert(list@.subrange(0, list@.len() as int) =~= list@);
                assert(list@ == ps[d as int]);
            }
            offsets.push(end);
            d = d + 1;
        }
        let r = InvertedIndexImmutableRam { offsets, elements, vector_count: ram.vector_count };
        assert(r.view_postings() =~= ps);
        r
    }
}

proof fn lemma_offsets_below(offsets: Seq<usize>, d: int, i: int)
    requires
        0 <= i < d < offsets.len(),
        forall|k: int| 0 <= k < d ==> #[trigger] offsets[k] <= offsets[k + 1],
    ensures
        offsets[i + 1] <= offsets[d],
    decreases d - i,
{
    if i + 1 < d {
        lemma_offsets_below(offsets, d, i + 1);
    }
}

/// Tag that opens the persisted form; a different tag is refused on reopening.
pub const FORMAT_VERSION: u32 = 1;

/// Offset added to a weight to store it as an unsigned word.
pub const WEIGHT_BIAS: u32 = 0x8000;

/// `w` is the word form of the index with these offsets, elements and point
/// count: a tag, the count, the number of lists, the offsets, then each
/// element as its point and its biased weight.
pub open spec fn words_layout(w: Seq<u32>, offsets: Seq<usize>, elements: Seq<PostingElement>, count: int) -> bool {
    let n = offsets.len() - 1;
    let m = elements.len() as int;
    &&& offsets.len() >= 1
    &&& w.len() == 4 + n + 2 * m
    &&& w[0] == FORMAT_VERSION
    &&& w[1] as int == count
    &&& w[2] as int == n
    &&& forall|i: int| 0 <= i <= n ==> #[trigger] w[3 + i] as int == offsets[i] as int
    &&& forall|j: int| 0 <= j < m ==> #[trigger] w[4 + n + 2 * j] == elements[j].record_id
        && w[5 + n + 2 * j] as int == elements[j].weight as int + WEIGHT_BIAS as int
}

/// The words can be read back as an index: known tag, consistent lengths,
/// offsets that start at zero and never decrease, weights in range.
pub open spec fn words_decodable(w: Seq<u32>) -> bool {
    &&& w.len() >= 4
    &&& w[0] == FORMAT_VERSION
    &&& w.len() >= 4 + w[2] as int
    &&& {
        let n = w[2] as int;
        let m = w[3 + n] as int;
        &&& w.len() == 4 + n + 2 * m
        &&& w[3] == 0
        &&& forall|i: int| 0 <= i < n ==> #[trigger] w[3 + i] <= w[4 + i]
        &&& forall|j: int| 0 <= j < m ==> #[trigger] w[5 + n + 2 * j] < 0x10000
    }
}

impl InvertedIndexImmutableRam {
    /// The sizes fit in the word form.
    pub open spec fn fits_words(&self) -> bool {
        &&& self.vector_count <= u32::MAX
        &&& self.offsets@.len() <= u32::MAX
        &&& self.elements@.len() <= u32::MAX / 4
        &&& 4 * (3 + self.offsets@.len() + 2 * self.elements@.len()) <= usize::MAX
    }

    /// The word form of the index; `None` where a size does not fit in a word.
    pub fn to_words(&self) -> (r: Option<Vec<u32>>)
        requires
            self.wf(),
        ensures
            r.is_some() == self.fits_words(),
            r matches Some(w) ==> words_layout(w@, self.offsets@, self.elements@, self.vector_count as int),
            r matches Some(w) ==> 4 * w@.len() <= usize::MAX,
    {
        if self.vector_count > u32::MAX as usize || self.offsets.len() > u32::MAX as usize
            || self.elements.len() > (u32::MAX / 4) as usize {
            return None;
        }
        if 4 * (3 + self.offsets.len() as u64 + 2 * self.elements.len() as u64) > usize::MAX as u64 {
            return None;
        }
        let n = self.offsets.len() - 1;
        let mut w: Vec<u32> = Vec::new();
        w.push(FORMAT_VERSION);
        w.push(self.vector_count as u32);
        w.push(n as u32);
        let mut i: usize = 0;
        while i < self.offsets.len()
            invariant
                self.wf(),
                self.fits_words(),
                n == self.offsets@.len() - 1,
                i <= self.offsets@.len(),
                w@.len() == 3 + i,
                w@[0] == FORMAT_VERSION,
                w@[1] as int == self.vector_count,
                w@[2] as int == n,
                forall|k: int| 0 <= k < i ==> #[trigger] w@[3 + k] as int == self.offsets@[k] as int,
            decreases self.offsets@.len() - i,
        {
            proof {
                lemma_offset_bounded(self, i as int);
            }
            w.push(self.offsets[i] as u32);
            i = i + 1;
        }
        let mut j: usize = 0;
        while j < self.elements.len()
            invariant
                self.wf(),
                self.fits_words(),
                n == self.offsets@.len() - 1,
                j <= self.elements@.len(),
                w@.len() == 4 + n + 2 * j,
                w@[0] == FORMAT_VERSION,
                w@[1] as int == self.vector_count,
                w@[2] as int == n,
                forall|k: int| 0 <= k <= n ==> #[trigger] w@[3 + k] as int == self.offsets@[k] as int,
                forall|k: int| 0 <= k < j ==> #[trigger] w@[4 + n + 2 * k] == self.elements@[k].record_id
                    && w@[5 + n + 2 * k] as int == self.elements@[k].weight as int + WEIGHT_BIAS as int,
            decreases self.elements@.len() - j,
        {
            let e = self.elements[j];
            let ghost w0 = w@;
            w.push(e.record_id);
            w.push((e.weight as i32 + WEIGHT_BIAS as i32) as u32);
            proof {
                assert forall|k: int| 0 <= k < j + 1 implies #[trigger] w@[4 + n + 2 * k] == self.elements@[k].record_id
                    && w@[5 + n + 2 * k] as int == self.elements@[k].weight as int + WEIGHT_BIAS as int by {
                    if k < j {
                        assert(w@[4 + n + 2 * k] == w0[4 + n + 2 * k]);
                        assert(w@[5 + n + 2 * k] == w0[5 + n + 2 * k]);
                    }
                }
                assert forall|k: int| 0 <= k <= n implies #[trigger] w@[3 + k] as int == self.offsets@[k] as int by {
                    assert(w@[3 + k] == w0[3 + k]);
                }
            }
            j = j + 1;
        }
        Some(w)
    }

    /// Reads an index back from its word form; `None` where the words are not
    /// one.
    pub fn from_words(w: &Vec<u32>) -> (r: Option<InvertedIndexImmutableRam>)
        ensures
            r.is_some() == words_decodable(w@),
            r matches Some(ix) ==> ix.wf() && words_layout(w@, ix.offsets@, ix.elements@, ix.vector_count as int),
    {
        if w.len() < 4 || w[0] != FORMAT_VERSION || w.len() - 4 < w[2] as usize {
            return None;
        }
        let n = w[2] as usize;
        let m = w[3 + n] as usize;
        if (w.len() - 4 - n) % 2 != 0 || (w.len() - 4 - n) / 2 != m || w[3] != 0 {
            return None;
        }
        let mut offsets: Vec<usize> = Vec::new();
        let mut i: usize = 0;
        while i <= n
            invariant
                w@.len() == 4 + n + 2 * m,
                w@.len() <= usize::MAX,
                n == w@[2] as int,
                m == w@[3 + n] as int,
                w@[3] == 0,
                i <= n + 1,
                offsets@.len() == i,
                forall|k: int| 0 <= k < i ==> #[trigger] offsets@[k] as int == w@[3 + k] as int,
                forall|k: int| 0 <= k < i - 1 ==> #[trigger] w@[3 + k] <= w@[4 + k],
            decreases n + 1 - i,
        {
            if i > 0 && w[2 + i] > w[3 + i] {
                proof {
                    let k = i - 1;
                    assert(w@[3 + k] > w@[4 + k]);
                    assert(0 <= k < n);
                }
                return None;
            }
            offsets.push(w[3 + i] as usize);
            i = i + 1;
        }
        let mut elements: Vec<PostingElement> = Vec::new();
        let mut j: usize = 0;
        while j < m
            invariant
                w@.len() == 4 + n + 2 * m,
                w@.len() <= usize::MAX,
                n == w@[2] as int,
                j <= m,
                elements@.len() == j,
                forall|k: int| 0 <= k < j ==> #[trigger] w@[5 + n + 2 * k] < 0x10000,
                forall|k: int| 0 <= k < j ==> #[trigger] w@[4 + n + 2 * k] == elements@[k].record_id
                    && w@[5 + n + 2 * k] as int == elements@[k].weight as int + WEIGHT_BIAS as int,
            decreases m - j,
        {
            let id = w[4 + n + 2 * j];
            let bw = w[5 + n + 2 * j];
            if bw >= 0x10000 {
                return None;
            }
            let weight = (bw as i32 - WEIGHT_BIAS as i32) as i16;
            assert(weight as int == bw as int - WEIGHT_BIAS as int);
            let ghost e0 = elements@;
            elements.push(PostingElement { record_id: id, weight });
            proof {
                assert forall|k: int| 0 <= k < j + 1 implies #[trigger] w@[4 + n + 2 * k] == elements@[k].record_id
                    && w@[5 + n + 2 * k] as int == elements@[k].weight as int + WEIGHT_BIAS as int by {
                    if k < j {
                        assert(elements@[k] == e0[k]);
                    }
                }
            }
            j = j + 1;
        }
        let ix = InvertedIndexImmutableRam { offsets, elements, vector_count: w[1] as usize };
        proof {
            assert(ix.offsets@.last() == ix.elements@.len());
        }
        Some(ix)
    }
}

proof fn lemma_offset_bounded(ix: &InvertedIndexImmutableRam, i: int)
    requires
        ix.wf(),
        0 <= i < ix.offsets@.len(),
    ensures
        ix.offsets@[i] <= ix.elements@.len(),
    decreases ix.offsets@.len() - i,
{
    if i < ix.offsets@.len() - 1 {
        lemma_offset_bounded(ix, i + 1);
    }
}

/// The word at position `i` of `b`, least significant byte first.
pub open spec fn word_at(b: Seq<u8>, i: int) -> u32 {
    (b[4 * i] as u32) | ((b[4 * i + 1] as u32) << 8u32) | ((b[4 * i + 2] as u32) << 16u32) | ((b[4 * i + 3] as u32) << 24u32)
}

/// The words that the bytes `b` hold, four bytes each.
pub open spec fn words_of(b: Seq<u8>) -> Seq<u32> {
    Seq::new((b.len() / 4) as nat, |i: int| word_at(b, i))
}

proof fn lemma_word_bytes(x: u32)
    ensures
        ((x & 0xff) as u8 as u32) | ((((x >> 8u32) & 0xff) as u8 as u32) << 8u32)
            | ((((x >> 16u32) & 0xff) as u8 as u32) << 16u32) | ((((x >> 24u32) & 0xff) as u8 as u32) << 24u32) == x,
{
    assert(((x & 0xff) as u8 as u32) | ((((x >> 8u32) & 0xff) as u8 as u32) << 8u32)
        | ((((x >> 16u32) & 0xff) as u8 as u32) << 16u32) | ((((x >> 24u32) & 0xff) as u8 as u32) << 24u32) == x)
        by (bit_vector);
}

/// The bytes of `w`, four per word, least significant first.
pub fn encode_words(w: &Vec<u32>) -> (r: Vec<u8>)
    requires
        w@.len() <= usize::MAX / 4,
    ensures
        r@.len() == 4 * w@.len(),
        words_of(r@) == w@,
{
    let mut r: Vec<u8> = Vec::new();
    let mut i: usize = 0;
    while i < w.len()
        invariant
            w@.len() <= usize::MAX / 4,
            i <= w@.len(),
            r@.len() == 4 * i,
            forall|k: int| 0 <= k < i ==> #[trigger] word_at(r@, k) == w@[k],
        decreases w@.len() - i,
    {
        let x = w[i];
        let ghost r0 = r@;
        assert((x & 0xff) <= 0xff) by (bit_vector);
        assert(((x >> 8u32) & 0xff) <= 0xff) by (bit_vector);
        assert(((x >> 16u32) & 0xff) <= 0xff) by (bit_vector);
        assert(((x >> 24u32) & 0xff) <= 0xff) by (bit_vector);
        r.push((x & 0xff) as u8);
        r.push(((x >> 8u32) & 0xff) as u8);
        r.push(((x >> 16u32) & 0xff) as u8);
        r.push(((x >> 24u32) & 0xff) as u8);
        proof {
            lemma_word_bytes(x);
            assert(word_at(r@, i as int) == x);
            assert forall|k: int| 0 <= k < i + 1 implies #[trigger] word_at(r@, k) == w@[k] by {
                if k < i {
                    assert(r@[4 * k] == r0[4 * k]);
                    assert(r@[4 * k + 1] == r0[4 * k + 1]);
                    assert(r@[4 * k + 2] == r0[4 * k + 2]);
                    assert(r@[4 * k + 3] == r0[4 * k + 3]);
                    assert(word_at(r@, k) == word_at(r0, k));
                }
            }
        }
        i = i + 1;
    }
    assert(words_of(r@) =~= w@);
    r
}

/// The words that `b` holds; `None` where its length is not a multiple of four.
pub fn decode_words(b: &Vec<u8>) -> (r: Option<Vec<u32>>)
    ensures
        r.is_some() == (b@.len() % 4 == 0),
        r matches Some(w) ==> w@ == words_of(b@),
{
    if b.len() % 4 != 0 {
        return None;
    }
    let n = b.len() / 4;
    let mut w: Vec<u32> = Vec::new();
    let mut i: usize = 0;
    while i < n
        invariant
            n == b@.len() / 4,
            b@.len() % 4 == 0,
            b@.len() <= usize::MAX,
            i <= n,
            w@ == words_of(b@).take(i as int),
        decreases n - i,
    {
        assert(4 * i + 3 < b@.len()) by (nonlinear_arith)
            requires
                i < n,
                n == b@.len() / 4,
                b@.len() % 4 == 0;
        let x = (b[4 * i] as u32) | ((b[4 * i + 1] as u32) << 8u32) | ((b[4 * i + 2] as u32) << 16u32)
            | ((b[4 * i + 3] as u32) << 24u32);
        w.push(x);
        assert(w@ =~= words_of(b@).take(i + 1));
        i = i + 1;
    }
    assert(w@ =~= words_of(b@));
    Some(w)
}

impl InvertedIndexImmutableRam {
    /// The persisted form of the index: its word form as bytes; `None` where a
    /// size does not fit in a word.
    pub fn to_bytes(&self) -> (r: Option<Vec<u8>>)
        requires
            self.wf(),
        ensures
            r.is_some() == self.fits_words(),
            r matches Some(b) ==> b@.len() % 4 == 0
                && words_layout(words_of(b@), self.offsets@, self.elements@, self.vector_count as int),
    {
        match self.to_words() {
            Some(w) => {
                let b = encode_words(&w);
                assert(b@.len() % 4 == 0);
                Some(b)
            },
            None => None,
        }
    }

    /// Reopens an index from its persisted form; `None` where the bytes are
    /// not one (unknown tag, inconsistent lengths or offsets).
    pub fn from_bytes(b: &Vec<u8>) -> (r: Option<InvertedIndexImmutableRam>)
        ensures
            r.is_some() == (b@.len() % 4 == 0 && words_decodable(words_of(b@))),
            r matches Some(ix) ==> ix.wf() && words_layout(words_of(b@), ix.offsets@, ix.elements@, ix.vector_count as int),
    {
        match decode_words(b) {
            Some(w) => InvertedIndexImmutableRam::from_words(&w),
            None => None,
        }
    }

    /// Number of points represented in the index.
    pub fn indexed_vector_count(&self) -> (r: usize)
        ensures
            r == self.vector_count,
    {
        self.vector_count
    }

    /// The posting list of dimension `d`; empty where the dimension was never seen.
    pub fn posting_list(&self, d: u32) -> (r: Vec<PostingElement>)
        requires
            self.wf(),
        ensures
            (d as int) < self.view_postings().len() ==> r@ == self.view_postings()[d as int],
            (d as int) >= self.view_postings().len() ==> r@.len() == 0,
    {
        let mut r: Vec<PostingElement> = Vec::new();
        if (d as usize) < self.offsets.len() - 1 {
            let a = self.offsets[d as usize];
            let e = self.offsets[d as usize + 1];
            proof {
                assert(self.offsets@[d as int] <= self.offsets@[d as int + 1]);
                lemma_offset_bounded(self, d as int + 1);
            }
            let mut j: usize = a;
            while j < e
                invariant
                    a <= j <= e,
                    e <= self.elements@.len(),
                    r@ == self.elements@.subrange(a as int, j as int),
                decreases e - j,
            {
                r.push(self.elements[j]);
                assert(r@ =~= self.elements@.subrange(a as int, j + 1));
                j = j + 1;
            }
        }
        r
    }
}

/// Round trip: the persisted form of an index reopens, and what reopens from it
/// has the same posting list for every dimension and the same point count.
pub proof fn lemma_persist_round_trip(a: InvertedIndexImmutableRam, c: InvertedIndexImmutableRam, b: Seq<u8>)
    requires
        a.wf(),
        b.len() % 4 == 0,
        words_layout(words_of(b), a.offsets@, a.elements@, a.vector_count as int),
    ensures
        words_decodable(words_of(b)),
        words_layout(words_of(b), c.offsets@, c.elements@, c.vector_count as int) ==> {
            &&& c.view_postings() == a.view_postings()
            &&& c.vector_count == a.vector_count
        },
{
    let w = words_of(b);
    let n = a.offsets@.len() - 1;
    let m = a.elements@.len() as int;
    assert(w[3 + n] as int == a.offsets@[n] as int);
    assert(w[3 + 0int] as int == a.offsets@[0] as int);
    assert forall|i: int| 0 <= i < n implies #[trigger] w[3 + i] <= w[4 + i] by {
        assert(w[3 + (i + 1)] as int == a.offsets@[i + 1] as int);
        assert(w[3 + i] as int == a.offsets@[i] as int);
    }
    assert forall|j: int| 0 <= j < m implies #[trigger] w[5 + n + 2 * j] < 0x10000 by {
        assert(w[4 + n + 2 * j] == a.elements@[j].record_id);
    }
    if words_layout(w, c.offsets@, c.elements@, c.vector_count as int) {
        assert forall|i: int| 0 <= i <= n implies c.offsets@[i] == a.offsets@[i] by {
            assert(w[3 + i] as int == c.offsets@[i] as int);
            assert(w[3 + i] as int == a.offsets@[i] as int);
        }
        assert(c.offsets@ =~= a.offsets@);
        assert forall|j: int| 0 <= j < m implies c.elements@[j] == a.elements@[j] by {
            assert(w[4 + n + 2 * j] == c.elements@[j].record_id);
            assert(w[4 + n + 2 * j] == a.elements@[j].record_id);
        }
        assert(c.elements@ =~= a.elements@);
        assert(c.view_postings() =~= a.view_postings());
    }
}

} // verus!
