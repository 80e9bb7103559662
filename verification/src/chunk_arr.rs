use crate::coord::product;
use crate::coord::GridCoord;
use vstd::prelude::*;

verus! {

/// Whether `idx` names a cell of an array of the given shape.
pub open spec fn in_bounds(idx: Seq<u64>, shape: Seq<u64>) -> bool {
    &&& idx.len() == shape.len()
    &&& forall|d: int| 0 <= d < shape.len() ==> idx[d] < shape[d]
}

/// Position of the cell `idx` when the cells of an array of the given shape
/// are laid out in C order (last axis fastest).
pub open spec fn ravel(idx: Seq<u64>, shape: Seq<u64>) -> nat
    decreases shape.len(),
{
    if shape.len() == 0 || idx.len() != shape.len() {
        0
    } else {
        ravel(idx.drop_last(), shape.drop_last()) * (shape.last() as nat) + (idx.last() as nat)
    }
}

/// The cell at position `k` of the C-order layout of the given shape.
pub open spec fn unravel(k: nat, shape: Seq<u64>) -> Seq<u64>
    decreases shape.len(),
{
    if shape.len() == 0 {
        Seq::empty()
    } else if shape.last() == 0 {
        unravel(0, shape.drop_last()).push(0)
    } else {
        unravel(k / (shape.last() as nat), shape.drop_last()).push(
            (k % (shape.last() as nat)) as u64,
        )
    }
}

pub proof fn lemma_unravel_len(k: nat, shape: Seq<u64>)
    ensures
        unravel(k, shape).len() == shape.len(),
    decreases shape.len(),
{
    if shape.len() > 0 {
        if shape.last() == 0 {
            lemma_unravel_len(0, shape.drop_last());
        } else {
            lemma_unravel_len(k / (shape.last() as nat), shape.drop_last());
        }
    }
}

/// A cell within bounds lies at a position below the number of cells.
pub proof fn lemma_ravel_bound(idx: Seq<u64>, shape: Seq<u64>)
    requires
        in_bounds(idx, shape),
    ensures
        ravel(idx, shape) < product(shape),
    decreases shape.len(),
{
    if shape.len() > 0 {
        lemma_ravel_bound(idx.drop_last(), shape.drop_last());
        let r = ravel(idx.drop_last(), shape.drop_last());
        let p = product(shape.drop_last());
        let s = shape.last() as nat;
        let i = idx.last() as nat;
        assert(r * s + i < p * s) by (nonlinear_arith)
            requires
                r < p,
                i < s,
        ;
    }
}

/// Every position below the number of cells names a cell within bounds, and
/// that cell lies at this position.
pub proof fn lemma_ravel_unravel(k: nat, shape: Seq<u64>)
    requires
        k < product(shape),
    ensures
        in_bounds(unravel(k, shape), shape),
        ravel(unravel(k, shape), shape) == k,
    decreases shape.len(),
{
    lemma_unravel_len(k, shape);
    if shape.len() > 0 {
        let s = shape.last() as nat;
        let p = product(shape.drop_last());
        assert(s > 0) by (nonlinear_arith)
            requires
                k < p * s,
        ;
        let q = k / s;
        let r = k % s;
        assert(q < p && k == q * s + r && r < s) by (nonlinear_arith)
            requires
                k < p * s,
                s > 0,
                q == k / s,
                r == k % s,
        ;
        lemma_ravel_unravel(q, shape.drop_last());
        let u = unravel(k, shape);
        assert(u.drop_last() =~= unravel(q, shape.drop_last()));
        assert forall|d: int| 0 <= d < shape.len() implies u[d] < shape[d] by {
            if d < shape.len() - 1 {
            }
        }
    }
}

/// The position of a cell within bounds names that cell.
pub proof fn lemma_unravel_ravel(idx: Seq<u64>, shape: Seq<u64>)
    requires
        in_bounds(idx, shape),
    ensures
        unravel(ravel(idx, shape), shape) == idx,
    decreases shape.len(),
{
    if shape.len() == 0 {
    } else {
        lemma_unravel_ravel(idx.drop_last(), shape.drop_last());
        let r = ravel(idx.drop_last(), shape.drop_last());
        let s = shape.last() as nat;
        let i = idx.last() as nat;
        let k = r * s + i;
        assert(k / s == r && k % s == i) by (nonlinear_arith)
            requires
                k == r * s + i,
                i < s,
        ;
    }
}

/// Computes the cell at position `k` of the C-order layout of `shape`.
pub fn unravel_index(k: usize, shape: &[u64]) -> (idx: Vec<u64>)
    requires
        k < product(shape@),
    ensures
        idx@ == unravel(k as nat, shape@),
        in_bounds(idx@, shape@),
        ravel(idx@, shape@) == k,
{
    proof {
        lemma_ravel_unravel(k as nat, shape@);
    }
    let n = shape.len();
    let mut out: Vec<u64> = Vec::new();
    let mut i: usize = 0;
    while i < n
        invariant
            n == shape@.len(),
            i <= n,
            out@.len() == i,
        decreases n - i,
    {
        out.push(0);
        i += 1;
    }
    let mut rem: u64 = k as u64;
    let mut d: usize = n;
    proof {
        assert(shape@.take(n as int) =~= shape@);
    }
    while d > 0
        invariant
            n == shape@.len(),
            d <= n,
            out@.len() == n,
            rem < product(shape@.take(d as int)),
            unravel(k as nat, shape@) == unravel(rem as nat, shape@.take(d as int)) + out@.subrange(
                d as int,
                n as int,
            ),
        decreases d,
    {
        let ghost pre = shape@.take(d as int);
        d -= 1;
        let s: u64 = shape[d];
        proof {
            assert(pre.drop_last() =~= shape@.take(d as int));
            let p = product(shape@.take(d as int));
            assert(s > 0) by (nonlinear_arith)
                requires
                    rem < p * (s as nat),
            ;
            assert((rem as nat) / (s as nat) < p) by (nonlinear_arith)
                requires
                    rem < p * (s as nat),
                    s > 0,
            ;
        }
        let ghost old_out = out@;
        out.set(d, rem % s);
        proof {
            let tail_new = out@.subrange(d as int, n as int);
            let tail_old = old_out.subrange(d as int + 1, n as int);
            assert(unravel(rem as nat, pre) == unravel(
                (rem as nat) / (s as nat),
                shape@.take(d as int),
            ).push(((rem as nat) % (s as nat)) as u64));
            assert(unravel(rem as nat, pre) + tail_old =~= unravel(
                (rem as nat) / (s as nat),
                shape@.take(d as int),
            ) + tail_new);
        }
        rem = rem / s;
    }
    proof {
        assert(out@.subrange(0, n as int) =~= out@);
    }
    out
}

/// Computes the C-order position of a cell within bounds.
pub fn ravel_index(idx: &[u64], shape: &[u64]) -> (k: usize)
    requires
        in_bounds(idx@, shape@),
        product(shape@) <= usize::MAX,
    ensures
        k == ravel(idx@, shape@),
        k < product(shape@),
{
    let n = shape.len();
    let mut acc: usize = 0;
    let mut d: usize = 0;
    while d < n
        invariant
            n == shape@.len(),
            in_bounds(idx@, shape@),
            product(shape@) <= usize::MAX,
            d <= n,
            acc == ravel(idx@.take(d as int), shape@.take(d as int)),
        decreases n - d,
    {
        proof {
            let i1 = idx@.take(d as int + 1);
            let s1 = shape@.take(d as int + 1);
            assert(i1.drop_last() =~= idx@.take(d as int));
            assert(s1.drop_last() =~= shape@.take(d as int));
            lemma_ravel_bound(i1, s1);
            assert(forall|j: int| 0 <= j < shape@.len() ==> shape@[j] > 0) by {
                assert forall|j: int| 0 <= j < shape@.len() implies shape@[j] > 0 by {
                }
            }
            crate::coord::lemma_product_prefix(shape@, d as int + 1);
            assert(ravel(i1, s1) == (acc as nat) * (shape@[d as int] as nat) + (
            idx@[d as int] as nat));
            crate::coord::lemma_product_prefix(shape@, d as int);
            let lead_cells = product(shape@.take(d as int));
            let sd = shape@[d as int] as nat;
            assert(sd <= lead_cells * sd) by (nonlinear_arith)
                requires
                    lead_cells >= 1,
            ;
        }
        acc = acc * (shape[d] as usize) + (idx[d] as usize);
        d += 1;
    }
    proof {
        assert(idx@.take(n as int) =~= idx@);
        assert(shape@.take(n as int) =~= shape@);
        lemma_ravel_bound(idx@, shape@);
    }
    acc
}

/// Number of indices that a walk over `shape` yields: none for a shape
/// without axes, else the number of cells.
pub open spec fn walk_len(shape: Seq<u64>) -> nat {
    if shape.len() == 0 {
        0
    } else {
        product(shape)
    }
}

/// Walks the indices of an N-dimensional shape in C order.
pub struct CIter {
    shape: Vec<u64>,
    total_size: usize,
    count: usize,
}

impl CIter {
    pub closed spec fn shape(&self) -> Seq<u64> {
        self.shape@
    }

    /// Number of indices handed out so far.
    pub closed spec fn position(&self) -> nat {
        self.count as nat
    }

    pub closed spec fn wf(&self) -> bool {
        &&& self.total_size == walk_len(self.shape@)
        &&& self.count <= self.total_size
    }

    /// A walk over all indices of `shape`; it yields nothing for a shape
    /// without axes or with an axis of length zero.
    pub fn new(shape: GridCoord) -> (it: CIter)
        requires
            product(shape@) <= usize::MAX,
        ensures
            it.wf(),
            it.shape() == shape@,
            it.position() == 0,
    {
        let v = shape.to_vec();
        let total = if v.len() == 0 {
            0
        } else {
            match crate::coord::checked_numel(v.as_slice()) {
                Some(n) => n,
                None => 0,
            }
        };
        CIter { shape: v, total_size: total, count: 0 }
    }

    pub fn ndim(&self) -> (n: usize)
        ensures
            n == self.shape().len(),
    {
        self.shape.len()
    }

    /// Number of indices still to come.
    pub fn remaining(&self) -> (n: usize)
        requires
            self.wf(),
        ensures
            n == walk_len(self.shape()) - self.position(),
    {
        self.total_size - self.count
    }

    /// The next index in C order, if any is left.
    pub fn next(&mut self) -> (r: Option<GridCoord>)
        requires
            old(self).wf(),
        ensures
            final(self).wf(),
            final(self).shape() == old(self).shape(),
            old(self).position() < walk_len(old(self).shape()) ==> {
                &&& final(self).position() == old(self).position() + 1
                &&& r.is_some()
                &&& r.unwrap()@ == unravel(old(self).position(), old(self).shape())
            },
            old(self).position() >= walk_len(old(self).shape()) ==> {
                &&& r.is_none()
                &&& final(self).position() == old(self).position()
            },
    {
        if self.count >= self.total_size {
            return None;
        }
        let idx = unravel_index(self.count, self.shape.as_slice());
        self.count += 1;
        Some(GridCoord::from_vec(idx))
    }

    /// All indices that are left, in order.
    pub fn collect(self) -> (v: Vec<GridCoord>)
        requires
            self.wf(),
        ensures
            v@.len() == walk_len(self.shape()) - self.position(),
            forall|i: int|
                0 <= i < v@.len() ==> (#[trigger] v@[i])@ == unravel(
                    (self.position() + i) as nat,
                    self.shape(),
                ),
    {
        let mut it = self;
        let mut out: Vec<GridCoord> = Vec::new();
        let ghost start = it.position();
        loop
            invariant
                it.wf(),
                it.shape() == self.shape(),
                start == self.position(),
                start <= it.position() <= walk_len(it.shape()),
                out@.len() == it.position() - start,
                forall|i: int|
                    0 <= i < out@.len() ==> (#[trigger] out@[i])@ == unravel(
                        (start + i) as nat,
                        it.shape(),
                    ),
            decreases walk_len(it.shape()) - it.position(),
        {
            match it.next() {
                Some(c) => {
                    out.push(c);
                },
                None => {
                    return out;
                },
            }
        }
    }
}

/// The indices of `shape` in C order, as [`CIter`] yields them.
pub fn c_order_indices(shape: &[u64]) -> (v: Vec<GridCoord>)
    requires
        product(shape@) <= usize::MAX,
    ensures
        v@.len() == walk_len(shape@),
        forall|i: int| 0 <= i < v@.len() ==> (#[trigger] v@[i])@ == unravel(i as nat, shape@),
{
    CIter::new(GridCoord::from_slice(shape)).collect()
}

/// What a region covers of one axis of a regular grid: it starts in chunk
/// `min_chunk` at in-chunk offset `min_offset` and ends before in-chunk
/// offset `max_offset` of chunk `max_chunk`; chunks are `chunk` cells long.
#[derive(Clone, Copy, Debug, PartialEq, Eq, Structural)]
pub struct AxisSpan {
    pub min_chunk: u64,
    pub min_offset: u64,
    pub max_chunk: u64,
    pub max_offset: u64,
    pub chunk: u64,
}

impl AxisSpan {
    /// First covered cell of the axis.
    pub open spec fn begin(self) -> int {
        self.min_chunk * self.chunk + self.min_offset
    }

    /// One past the last covered cell of the axis.
    pub open spec fn end(self) -> int {
        self.max_chunk * self.chunk + self.max_offset
    }

    pub open spec fn ok(self) -> bool {
        &&& self.chunk > 0
        &&& self.min_offset < self.chunk
        &&& self.max_offset < self.chunk
        &&& self.begin() <= self.end() <= u64::MAX
    }

    /// Number of chunks that hold at least one covered cell.
    pub open spec fn count(self) -> nat {
        if self.max_chunk < self.min_chunk || (self.max_chunk == self.min_chunk && self.max_offset
            <= self.min_offset) {
            0
        } else if self.max_offset == 0 {
            (self.max_chunk - self.min_chunk) as nat
        } else {
            (self.max_chunk - self.min_chunk + 1) as nat
        }
    }

    /// In-chunk offset of the first covered cell of the `j`-th touched chunk.
    pub open spec fn chunk_start(self, j: nat) -> int {
        if j == 0 {
            self.min_offset as int
        } else {
            0
        }
    }

    /// In-chunk offset one past the last covered cell of the `j`-th touched
    /// chunk.
    pub open spec fn chunk_stop(self, j: nat) -> int {
        if self.min_chunk + j == self.max_chunk {
            self.max_offset as int
        } else {
            self.chunk as int
        }
    }

    /// Number of covered cells in the `j`-th touched chunk.
    pub open spec fn extent(self, j: nat) -> int {
        self.chunk_stop(j) - self.chunk_start(j)
    }

    /// Where the cells of the `j`-th touched chunk start, counted from the
    /// first covered cell.
    pub open spec fn out_start(self, j: nat) -> int {
        if j == 0 {
            0
        } else {
            (self.chunk - self.min_offset) + self.chunk * (j - 1)
        }
    }

    pub open spec fn chunk_slice(self, j: nat) -> crate::chunk_grid::ArraySlice {
        crate::chunk_grid::ArraySlice {
            offset: self.chunk_start(j) as u64,
            shape: self.extent(j) as u64,
        }
    }

    pub open spec fn out_slice(self, j: nat) -> crate::chunk_grid::ArraySlice {
        crate::chunk_grid::ArraySlice {
            offset: self.out_start(j) as u64,
            shape: self.extent(j) as u64,
        }
    }

    /// Every touched chunk holds at least one covered cell and at most a
    /// whole chunk, and its cells lie within the covered stretch.
    pub proof fn lemma_extent(self, j: nat)
        requires
            self.ok(),
            j < self.count(),
        ensures
            0 <= self.chunk_start(j) < self.chunk_stop(j) <= self.chunk,
            0 <= self.out_start(j),
            self.out_start(j) + self.extent(j) <= self.end() - self.begin(),
            self.min_chunk + j <= self.max_chunk,
            j + 1 < self.count() ==> self.out_start(j) + self.extent(j) == self.out_start(
                (j + 1) as nat,
            ),
            j + 1 == self.count() ==> self.out_start(j) + self.extent(j) == self.end()
                - self.begin(),
    {
        let c = self.chunk as int;
        let a = self.min_chunk as int;
        let b = self.max_chunk as int;
        let jj = j as int;
        assert(a * c <= b * c) by (nonlinear_arith)
            requires
                a <= b,
                c > 0,
        ;
        assert(c * (jj - 1) >= 0 || jj == 0) by (nonlinear_arith)
            requires
                jj >= 0,
                c > 0,
        ;
        assert(b * c - a * c == (b - a) * c) by (nonlinear_arith);
        if jj > 0 {
            assert(c * (jj - 1) + c == c * jj) by (nonlinear_arith);
            assert(c * jj <= (b - a) * c) by (nonlinear_arith)
                requires
                    jj <= b - a,
                    c > 0,
            ;
            if a + jj == b {
                assert(c * jj == (b - a) * c) by (nonlinear_arith)
                    requires
                        jj == b - a,
                ;
            }
            assert(c * (jj + 1) == c * jj + c) by (nonlinear_arith);
            if a + jj < b {
                assert(c * (jj + 1) <= (b - a) * c) by (nonlinear_arith)
                    requires
                        jj + 1 <= b - a,
                        c > 0,
                ;
            }
            if jj + 1 == self.count() && a + jj != b {
                assert(c * (jj + 1) == (b - a) * c) by (nonlinear_arith)
                    requires
                        jj + 1 == b - a,
                ;
            }
        } else {
            if jj + 1 == self.count() && a != b {
                assert((b - a) * c == c) by (nonlinear_arith)
                    requires
                        b - a == 1,
                ;
            }
            if a < b {
                assert((b - a) * c >= c) by (nonlinear_arith)
                    requires
                        b - a >= 1,
                        c > 0,
                ;
            }
        }
    }
}

/// The spans given by five per-axis lists, as far as all of them reach.
pub open spec fn spans_of(
    min_chunk: Seq<u64>,
    min_offset: Seq<u64>,
    max_chunk: Seq<u64>,
    max_offset: Seq<u64>,
    chunk_shape: Seq<u64>,
) -> Seq<AxisSpan> {
    Seq::new(
        min_chunk.len(),
        |i: int|
            AxisSpan {
                min_chunk: min_chunk[i],
                min_offset: min_offset[i],
                max_chunk: max_chunk[i],
                max_offset: max_offset[i],
                chunk: chunk_shape[i],
            },
    )
}

/// Number of touched chunks on every axis.
pub open spec fn span_counts(spans: Seq<AxisSpan>) -> Seq<u64> {
    Seq::new(spans.len(), |i: int| spans[i].count() as u64)
}

pub open spec fn spans_ok(spans: Seq<AxisSpan>) -> bool {
    forall|i: int| 0 <= i < spans.len() ==> (#[trigger] spans[i]).ok()
}

/// Index of the touched chunk that has position `local` among the touched
/// chunks.
pub open spec fn span_chunk_idx(spans: Seq<AxisSpan>, local: Seq<u64>) -> Seq<u64> {
    Seq::new(spans.len(), |i: int| (spans[i].min_chunk + local[i]) as u64)
}

/// The covered part of that chunk, in the chunk's own coordinates.
pub open spec fn span_chunk_region(spans: Seq<AxisSpan>, local: Seq<u64>) -> Seq<
    crate::chunk_grid::ArraySlice,
> {
    Seq::new(spans.len(), |i: int| spans[i].chunk_slice(local[i] as nat))
}

/// Where that part lies, counted from the first covered cell.
pub open spec fn span_out_region(spans: Seq<AxisSpan>, local: Seq<u64>) -> Seq<
    crate::chunk_grid::ArraySlice,
> {
    Seq::new(spans.len(), |i: int| spans[i].out_slice(local[i] as nat))
}

/// Walks the chunks that a region touches, in C order, and says for each
/// which part of it the region covers.
pub struct PartialChunkIter {
    spans: Vec<AxisSpan>,
    c_iter: CIter,
}

impl PartialChunkIter {
    pub closed spec fn spans(&self) -> Seq<AxisSpan> {
        self.spans@
    }

    /// Number of chunks handed out so far.
    pub closed spec fn position(&self) -> nat {
        self.c_iter.position()
    }

    pub closed spec fn wf(&self) -> bool {
        &&& spans_ok(self.spans@)
        &&& self.c_iter.wf()
        &&& self.c_iter.shape() == span_counts(self.spans@)
    }

    /// The walk over the chunks between `min_chunk` and `max_chunk`, where
    /// the region starts at in-chunk offset `min_chunk_offset` of the first
    /// and ends before in-chunk offset `max_chunk_offset` of the last.
    pub fn new(
        min_chunk: GridCoord,
        min_chunk_offset: GridCoord,
        max_chunk: GridCoord,
        max_chunk_offset: GridCoord,
        chunk_shape: GridCoord,
    ) -> (it: PartialChunkIter)
        requires
            min_chunk_offset@.len() == min_chunk@.len(),
            max_chunk@.len() == min_chunk@.len(),
            max_chunk_offset@.len() == min_chunk@.len(),
            chunk_shape@.len() == min_chunk@.len(),
            spans_ok(spans_of(min_chunk@, min_chunk_offset@, max_chunk@, max_chunk_offset@, chunk_shape@)),
            product(
                span_counts(
                    spans_of(min_chunk@, min_chunk_offset@, max_chunk@, max_chunk_offset@, chunk_shape@),
                ),
            ) <= usize::MAX,
        ensures
            it.wf(),
            it.spans() == spans_of(
                min_chunk@,
                min_chunk_offset@,
                max_chunk@,
                max_chunk_offset@,
                chunk_shape@,
            ),
            it.position() == 0,
    {
        let ghost target = spans_of(
            min_chunk@,
            min_chunk_offset@,
            max_chunk@,
            max_chunk_offset@,
            chunk_shape@,
        );
        let n = min_chunk.len();
        let mut spans: Vec<AxisSpan> = Vec::new();
        let mut counts: Vec<u64> = Vec::new();
        let mut i: usize = 0;
        while i < n
            invariant
                n == min_chunk@.len(),
                min_chunk_offset@.len() == n,
                max_chunk@.len() == n,
                max_chunk_offset@.len() == n,
                chunk_shape@.len() == n,
                target == spans_of(
                    min_chunk@,
                    min_chunk_offset@,
                    max_chunk@,
                    max_chunk_offset@,
                    chunk_shape@,
                ),
                spans_ok(target),
                i <= n,
                spans@.len() == i,
                counts@.len() == i,
                forall|j: int| 0 <= j < i ==> spans@[j] == target[j],
                forall|j: int| 0 <= j < i ==> counts@[j] == target[j].count(),
            decreases n - i,
        {
            let s = AxisSpan {
                min_chunk: min_chunk.get(i),
                min_offset: min_chunk_offset.get(i),
                max_chunk: max_chunk.get(i),
                max_offset: max_chunk_offset.get(i),
                chunk: chunk_shape.get(i),
            };
            assert(target[i as int].ok());
            let c: u64 = if s.max_chunk < s.min_chunk || (s.max_chunk == s.min_chunk
                && s.max_offset <= s.min_offset) {
                0
            } else if s.max_offset == 0 {
                s.max_chunk - s.min_chunk
            } else {
                proof {
                    let b = s.max_chunk as int;
                    let cc = s.chunk as int;
                    assert(b * cc >= b) by (nonlinear_arith)
                        requires
                            b >= 0,
                            cc >= 1,
                    ;
                }
                s.max_chunk - s.min_chunk + 1
            };
            spans.push(s);
            counts.push(c);
            i += 1;
        }
        assert(spans@ =~= target);
        assert(counts@ =~= span_counts(target));
        let c_iter = CIter::new(GridCoord::from_vec(counts));
        PartialChunkIter { spans, c_iter }
    }

    pub fn ndim(&self) -> (n: usize)
        ensures
            n == self.spans().len(),
    {
        self.spans.len()
    }

    /// Number of chunks still to come.
    pub fn remaining(&self) -> (n: usize)
        requires
            self.wf(),
        ensures
            n == walk_len(span_counts(self.spans())) - self.position(),
    {
        self.c_iter.remaining()
    }

    /// The next touched chunk in C order, if any is left.
    pub fn next(&mut self) -> (r: Option<crate::chunk_grid::PartialChunk>)
        requires
            old(self).wf(),
        ensures
            final(self).wf(),
            final(self).spans() == old(self).spans(),
            old(self).position() < walk_len(span_counts(old(self).spans())) ==> {
                &&& final(self).position() == old(self).position() + 1
                &&& r.is_some()
                &&& is_partial_chunk(
                    r.unwrap(),
                    old(self).spans(),
                    unravel(old(self).position(), span_counts(old(self).spans())),
                )
            },
            old(self).position() >= walk_len(span_counts(old(self).spans())) ==> {
                &&& r.is_none()
                &&& final(self).position() == old(self).position()
            },
    {
        let ghost counts = span_counts(self.spans@);
        let ghost pos = self.c_iter.position();
        let local = match self.c_iter.next() {
            Some(l) => l,
            None => {
                return None;
            },
        };
        proof {
            lemma_ravel_unravel(pos, counts);
        }
        let n = self.spans.len();
        let mut chunk_idx: Vec<u64> = Vec::new();
        let mut chunk_slices: Vec<crate::chunk_grid::ArraySlice> = Vec::new();
        let mut out_slices: Vec<crate::chunk_grid::ArraySlice> = Vec::new();
        let mut d: usize = 0;
        while d < n
            invariant
                n == self.spans@.len(),
                spans_ok(self.spans@),
                counts == span_counts(self.spans@),
                in_bounds(local@, counts),
                d <= n,
                chunk_idx@.len() == d,
                chunk_slices@.len() == d,
                out_slices@.len() == d,
                forall|j: int|
                    0 <= j < d ==> chunk_idx@[j] == self.spans@[j].min_chunk + local@[j],
                forall|j: int|
                    0 <= j < d ==> chunk_slices@[j] == self.spans@[j].chunk_slice(local@[j] as nat),
                forall|j: int|
                    0 <= j < d ==> out_slices@[j] == self.spans@[j].out_slice(local@[j] as nat),
            decreases n - d,
        {
            let s = self.spans[d];
            let j: u64 = local.get(d);
            proof {
                s.lemma_extent(j as nat);
            }
            let k: u64 = s.min_chunk + j;
            let start: u64 = if j == 0 {
                s.min_offset
            } else {
                0
            };
            let stop: u64 = if k == s.max_chunk {
                s.max_offset
            } else {
                s.chunk
            };
            let out_start: u64 = if j == 0 {
                0
            } else {
                proof {
                    let c = s.chunk as int;
                    let jj = j as int;
                    assert(c * (jj - 1) >= 0) by (nonlinear_arith)
                        requires
                            jj >= 1,
                            c > 0,
                    ;
                }
                (s.chunk - s.min_offset) + s.chunk * (j - 1)
            };
            chunk_idx.push(k);
            chunk_slices.push(crate::chunk_grid::ArraySlice::new(start, stop - start));
            out_slices.push(crate::chunk_grid::ArraySlice::new(out_start, stop - start));
            d += 1;
        }
        let pc = crate::chunk_grid::PartialChunk::new_unchecked(
            GridCoord::from_vec(chunk_idx),
            crate::chunk_grid::ArrayRegion::from_vec(chunk_slices),
            crate::chunk_grid::ArrayRegion::from_vec(out_slices),
        );
        proof {
            assert(pc.chunk_idx@ =~= span_chunk_idx(self.spans@, local@));
            assert(pc.chunk_region@ =~= span_chunk_region(self.spans@, local@));
            assert(pc.out_region@ =~= span_out_region(self.spans@, local@));
        }
        Some(pc)
    }

    /// All touched chunks that are left, in order.
    pub fn collect(self) -> (v: Vec<crate::chunk_grid::PartialChunk>)
        requires
            self.wf(),
        ensures
            v@.len() == walk_len(span_counts(self.spans())) - self.position(),
            forall|i: int|
                0 <= i < v@.len() ==> is_partial_chunk(
                    #[trigger] v@[i],
                    self.spans(),
                    unravel((self.position() + i) as nat, span_counts(self.spans())),
                ),
    {
        let mut it = self;
        let mut out: Vec<crate::chunk_grid::PartialChunk> = Vec::new();
        let ghost start = it.position();
        loop
            invariant
                it.wf(),
                it.spans() == self.spans(),
                start == self.position(),
                start <= it.position() <= walk_len(span_counts(it.spans())),
                out@.len() == it.position() - start,
                forall|i: int|
                    0 <= i < out@.len() ==> is_partial_chunk(
                        #[trigger] out@[i],
                        it.spans(),
                        unravel((start + i) as nat, span_counts(it.spans())),
                    ),
            decreases walk_len(span_counts(it.spans())) - it.position(),
        {
            match it.next() {
                Some(c) => {
                    out.push(c);
                },
                None => {
                    return out;
                },
            }
        }
    }
}

/// One chunk of an array: its index, where it starts, and how much of it
/// lies within the array.
#[derive(Debug)]
pub struct ChunkIterOutput {
    pub chunk_idx: GridCoord,
    pub offset: GridCoord,
    pub shape: GridCoord,
}

impl Clone for ChunkIterOutput {
    fn clone(&self) -> (r: ChunkIterOutput)
        ensures
            r.chunk_idx@ == self.chunk_idx@,
            r.offset@ == self.offset@,
            r.shape@ == self.shape@,
    {
        ChunkIterOutput {
            chunk_idx: self.chunk_idx.clone(),
            offset: self.offset.clone(),
            shape: self.shape.clone(),
        }
    }
}

/// Why the chunks of an array cannot be walked.
#[derive(Clone, Copy, Debug, PartialEq, Eq, Structural)]
pub enum ChunkIterError {
    /// Chunk shape and array shape differ in their number of axes.
    DimensionMismatch,
    /// A chunk length is zero.
    ZeroChunkDimension,
    /// The array is not a whole number of chunks.
    NotDivisible,
    /// There are more chunks than can be counted.
    TooManyChunks,
}

/// Number of chunks of length `c` that cover `a` cells.
pub open spec fn chunks_along(a: u64, c: u64) -> u64 {
    if c == 0 {
        0
    } else if a % c == 0 {
        a / c
    } else {
        (a / c + 1) as u64
    }
}

/// Number of chunks along every axis.
pub open spec fn chunk_counts(arr_shape: Seq<u64>, chunk_shape: Seq<u64>) -> Seq<u64> {
    Seq::new(arr_shape.len(), |i: int| chunks_along(arr_shape[i], chunk_shape[i]))
}

/// Whether every axis of the array is a whole number of chunks.
pub open spec fn divides_evenly(arr_shape: Seq<u64>, chunk_shape: Seq<u64>) -> bool {
    forall|i: int|
        0 <= i < arr_shape.len() ==> divides(chunk_shape[i], #[trigger] arr_shape[i])
}

/// Whether `a` is a whole multiple of the positive length `c`.
pub open spec fn divides(c: u64, a: u64) -> bool {
    c != 0 && a % c == 0
}

/// Whether `out` describes the chunk with index `idx`.
pub open spec fn is_chunk_output(
    out: ChunkIterOutput,
    arr_shape: Seq<u64>,
    chunk_shape: Seq<u64>,
    idx: Seq<u64>,
) -> bool {
    &&& out.chunk_idx@ == idx
    &&& out.offset@.len() == arr_shape.len()
    &&& out.shape@.len() == arr_shape.len()
    &&& forall|d: int|
        0 <= d < arr_shape.len() ==> #[trigger] out.offset@[d] == idx[d] * chunk_shape[d]
    &&& forall|d: int|
        0 <= d < arr_shape.len() ==> #[trigger] out.shape@[d] == if idx[d] * chunk_shape[d]
            + chunk_shape[d] > arr_shape[d] {
            arr_shape[d] - idx[d] * chunk_shape[d]
        } else {
            chunk_shape[d] as int
        }
}

/// Walks the chunks of an array in C order.
pub struct ChunkIter {
    arr_shape: Vec<u64>,
    chunk_shape: Vec<u64>,
    c_iter: CIter,
}

impl ChunkIter {
    pub closed spec fn arr_shape(&self) -> Seq<u64> {
        self.arr_shape@
    }

    pub closed spec fn chunk_shape(&self) -> Seq<u64> {
        self.chunk_shape@
    }

    pub closed spec fn position(&self) -> nat {
        self.c_iter.position()
    }

    pub closed spec fn wf(&self) -> bool {
        &&& self.arr_shape@.len() == self.chunk_shape@.len()
        &&& crate::chunk_grid::all_positive(self.chunk_shape@)
        &&& self.c_iter.wf()
        &&& self.c_iter.shape() == chunk_counts(self.arr_shape@, self.chunk_shape@)
    }

    /// A walk over the chunks of an array; chunks at the upper edges may
    /// reach beyond the array and are reported with what lies within.
    pub fn new(chunk_shape: GridCoord, arr_shape: GridCoord) -> (r: Result<
        ChunkIter,
        ChunkIterError,
    >)
        ensures
            chunk_shape@.len() != arr_shape@.len() ==> r is Err && r->Err_0
                == ChunkIterError::DimensionMismatch,
            chunk_shape@.len() == arr_shape@.len() && !crate::chunk_grid::all_positive(
                chunk_shape@,
            ) ==> r is Err && r->Err_0 == ChunkIterError::ZeroChunkDimension,
            chunk_shape@.len() == arr_shape@.len() && crate::chunk_grid::all_positive(
                chunk_shape@,
            ) && product(chunk_counts(arr_shape@, chunk_shape@)) > usize::MAX ==> r is Err
                && r->Err_0 == ChunkIterError::TooManyChunks,
            chunk_shape@.len() == arr_shape@.len() && crate::chunk_grid::all_positive(
                chunk_shape@,
            ) && product(chunk_counts(arr_shape@, chunk_shape@)) <= usize::MAX ==> r is Ok,
            r matches Ok(it) ==> it.wf() && it.arr_shape() == arr_shape@ && it.chunk_shape()
                == chunk_shape@ && it.position() == 0,
    {
        let cs = chunk_shape.to_vec();
        let ars = arr_shape.to_vec();
        if cs.len() != ars.len() {
            return Err(ChunkIterError::DimensionMismatch);
        }
        let mut counts: Vec<u64> = Vec::new();
        let mut i: usize = 0;
        while i < ars.len()
            invariant
                cs@ == chunk_shape@,
                ars@ == arr_shape@,
                cs@.len() == ars@.len(),
                i <= ars@.len(),
                counts@.len() == i,
                forall|j: int| 0 <= j < i ==> cs@[j] > 0,
                forall|j: int| 0 <= j < i ==> counts@[j] == chunks_along(ars@[j], cs@[j]),
            decreases ars@.len() - i,
        {
            let c: u64 = cs[i];
            let a: u64 = ars[i];
            if c == 0 {
                return Err(ChunkIterError::ZeroChunkDimension);
            }
            let n: u64 = if a % c == 0 {
                a / c
            } else {
                proof {
                    vstd::arithmetic::div_mod::lemma_fundamental_div_mod(a as int, c as int);
                    if c > 1 {
                        vstd::arithmetic::div_mod::lemma_div_decreases(a as int, c as int);
                    }
                }
                a / c + 1
            };
            counts.push(n);
            i += 1;
        }
        assert(counts@ =~= chunk_counts(ars@, cs@));
        match crate::coord::checked_numel(counts.as_slice()) {
            None => Err(ChunkIterError::TooManyChunks),
            Some(_) => {
                let c_iter = CIter::new(GridCoord::from_vec(counts));
                Ok(ChunkIter { arr_shape: ars, chunk_shape: cs, c_iter })
            },
        }
    }

    /// As [`ChunkIter::new`], for arrays that are a whole number of chunks.
    pub fn new_strict(chunk_shape: GridCoord, arr_shape: GridCoord) -> (r: Result<
        ChunkIter,
        ChunkIterError,
    >)
        ensures
            chunk_shape@.len() != arr_shape@.len() ==> r is Err && r->Err_0
                == ChunkIterError::DimensionMismatch,
            chunk_shape@.len() == arr_shape@.len() && !crate::chunk_grid::all_positive(
                chunk_shape@,
            ) ==> r is Err && r->Err_0 == ChunkIterError::ZeroChunkDimension,
            chunk_shape@.len() == arr_shape@.len() && crate::chunk_grid::all_positive(
                chunk_shape@,
            ) && !divides_evenly(arr_shape@, chunk_shape@) ==> r is Err && r->Err_0
                == ChunkIterError::NotDivisible,
            chunk_shape@.len() == arr_shape@.len() && divides_evenly(arr_shape@, chunk_shape@)
                && product(chunk_counts(arr_shape@, chunk_shape@)) > usize::MAX ==> r is Err
                && r->Err_0 == ChunkIterError::TooManyChunks,
            chunk_shape@.len() == arr_shape@.len() && divides_evenly(arr_shape@, chunk_shape@)
                && product(chunk_counts(arr_shape@, chunk_shape@)) <= usize::MAX ==> r is Ok,
            r matches Ok(it) ==> it.wf() && it.arr_shape() == arr_shape@ && it.chunk_shape()
                == chunk_shape@ && it.position() == 0,
    {
        let cs = chunk_shape.as_slice();
        let ars = arr_shape.as_slice();
        if cs.len() != ars.len() {
            return Err(ChunkIterError::DimensionMismatch);
        }
        let mut i: usize = 0;
        while i < cs.len()
            invariant
                cs@ == chunk_shape@,
                ars@ == arr_shape@,
                cs@.len() == ars@.len(),
                i <= cs@.len(),
                forall|j: int| 0 <= j < i ==> cs@[j] > 0,
            decreases cs@.len() - i,
        {
            if cs[i] == 0 {
                assert(!divides(cs@[i as int], ars@[i as int]));
                return Err(ChunkIterError::ZeroChunkDimension);
            }
            i += 1;
        }
        let mut k: usize = 0;
        while k < cs.len()
            invariant
                cs@ == chunk_shape@,
                ars@ == arr_shape@,
                cs@.len() == ars@.len(),
                k <= cs@.len(),
                crate::chunk_grid::all_positive(cs@),
                forall|j: int| 0 <= j < k ==> divides(cs@[j], #[trigger] ars@[j]),
            decreases cs@.len() - k,
        {
            if ars[k] % cs[k] != 0 {
                return Err(ChunkIterError::NotDivisible);
            }
            k += 1;
        }
        ChunkIter::new(chunk_shape, arr_shape)
    }

    pub fn ndim(&self) -> (n: usize)
        ensures
            n == self.arr_shape().len(),
    {
        self.arr_shape.len()
    }

    /// Number of chunks still to come.
    pub fn remaining(&self) -> (n: usize)
        requires
            self.wf(),
        ensures
            n == walk_len(chunk_counts(self.arr_shape(), self.chunk_shape())) - self.position(),
    {
        self.c_iter.remaining()
    }

    /// The next chunk in C order, if any is left.
    pub fn next(&mut self) -> (r: Option<ChunkIterOutput>)
        requires
            old(self).wf(),
        ensures
            final(self).wf(),
            final(self).arr_shape() == old(self).arr_shape(),
            final(self).chunk_shape() == old(self).chunk_shape(),
            old(self).position() < walk_len(
                chunk_counts(old(self).arr_shape(), old(self).chunk_shape()),
            ) ==> {
                &&& final(self).position() == old(self).position() + 1
                &&& r.is_some()
                &&& is_chunk_output(
                    r.unwrap(),
                    old(self).arr_shape(),
                    old(self).chunk_shape(),
                    unravel(
                        old(self).position(),
                        chunk_counts(old(self).arr_shape(), old(self).chunk_shape()),
                    ),
                )
            },
            old(self).position() >= walk_len(
                chunk_counts(old(self).arr_shape(), old(self).chunk_shape()),
            ) ==> {
                &&& r.is_none()
                &&& final(self).position() == old(self).position()
            },
    {
        let ghost counts = chunk_counts(self.arr_shape@, self.chunk_shape@);
        let ghost pos = self.c_iter.position();
        let chunk_idx = match self.c_iter.next() {
            Some(l) => l,
            None => {
                return None;
            },
        };
        proof {
            lemma_ravel_unravel(pos, counts);
        }
        let n = self.arr_shape.len();
        let mut offset: Vec<u64> = Vec::new();
        let mut shape: Vec<u64> = Vec::new();
        let mut d: usize = 0;
        while d < n
            invariant
                n == self.arr_shape@.len(),
                n == self.chunk_shape@.len(),
                crate::chunk_grid::all_positive(self.chunk_shape@),
                counts == chunk_counts(self.arr_shape@, self.chunk_shape@),
                in_bounds(chunk_idx@, counts),
                d <= n,
                offset@.len() == d,
                shape@.len() == d,
                forall|j: int|
                    0 <= j < d ==> #[trigger] offset@[j] == chunk_idx@[j] * self.chunk_shape@[j],
                forall|j: int|
                    0 <= j < d ==> #[trigger] shape@[j] == if chunk_idx@[j] * self.chunk_shape@[j]
                        + self.chunk_shape@[j] > self.arr_shape@[j] {
                        self.arr_shape@[j] - chunk_idx@[j] * self.chunk_shape@[j]
                    } else {
                        self.chunk_shape@[j] as int
                    },
            decreases n - d,
        {
            let c: u64 = self.chunk_shape[d];
            let a: u64 = self.arr_shape[d];
            let i: u64 = chunk_idx.get(d);
            proof {
                let ai = a as int;
                let ci = c as int;
                let ii = i as int;
                vstd::arithmetic::div_mod::lemma_fundamental_div_mod(ai, ci);
                assert(ii * ci < ai) by (nonlinear_arith)
                    requires
                        ai == ci * (ai / ci) + ai % ci,
                        0 <= ai % ci,
                        ci > 0,
                        ii >= 0,
                        ii < ai / ci || (ai % ci != 0 && ii <= ai / ci),
                ;
            }
            let o: u64 = i * c;
            let s: u64 = if c > a - o {
                a - o
            } else {
                c
            };
            offset.push(o);
            shape.push(s);
            d += 1;
        }
        Some(
            ChunkIterOutput {
                chunk_idx,
                offset: GridCoord::from_vec(offset),
                shape: GridCoord::from_vec(shape),
            },
        )
    }

    /// All chunks that are left, in order.
    pub fn collect(self) -> (v: Vec<ChunkIterOutput>)
        requires
            self.wf(),
        ensures
            v@.len() == walk_len(chunk_counts(self.arr_shape(), self.chunk_shape()))
                - self.position(),
            forall|i: int|
                0 <= i < v@.len() ==> is_chunk_output(
                    #[trigger] v@[i],
                    self.arr_shape(),
                    self.chunk_shape(),
                    unravel(
                        (self.position() + i) as nat,
                        chunk_counts(self.arr_shape(), self.chunk_shape()),
                    ),
                ),
    {
        let mut it = self;
        let mut out: Vec<ChunkIterOutput> = Vec::new();
        let ghost start = it.position();
        loop
            invariant
                it.wf(),
                it.arr_shape() == self.arr_shape(),
                it.chunk_shape() == self.chunk_shape(),
                start == self.position(),
                start <= it.position() <= walk_len(
                    chunk_counts(it.arr_shape(), it.chunk_shape()),
                ),
                out@.len() == it.position() - start,
                forall|i: int|
                    0 <= i < out@.len() ==> is_chunk_output(
                        #[trigger] out@[i],
                        it.arr_shape(),
                        it.chunk_shape(),
                        unravel(
                            (start + i) as nat,
                            chunk_counts(it.arr_shape(), it.chunk_shape()),
                        ),
                    ),
            decreases walk_len(chunk_counts(it.arr_shape(), it.chunk_shape())) - it.position(),
        {
            match it.next() {
                Some(c) => {
                    out.push(c);
                },
                None => {
                    return out;
                },
            }
        }
    }
}

/// Sum of `f(0)`, ..., `f(n - 1)`.
pub open spec fn sum_to(f: spec_fn(nat) -> nat, n: nat) -> nat
    decreases n,
{
    if n == 0 {
        0
    } else {
        sum_to(f, (n - 1) as nat) + f((n - 1) as nat)
    }
}

/// Summing `a * g(r)` over a block of `m` positions behind `base`.
proof fn lemma_sum_block(f: spec_fn(nat) -> nat, g: spec_fn(nat) -> nat, a: nat, base: nat, m: nat)
    requires
        forall|r: nat| r < m ==> #[trigger] f(base + r) == a * g(r),
    ensures
        sum_to(f, base + m) == sum_to(f, base) + a * sum_to(g, m),
    decreases m,
{
    if m == 0 {
        assert(a * 0 == 0);
    } else {
        let m1 = (m - 1) as nat;
        lemma_sum_block(f, g, a, base, m1);
        assert(a * (sum_to(g, m1) + g(m1)) == a * sum_to(g, m1) + a * g(m1))
            by (nonlinear_arith);
    }
}

/// A sum over `n * s` positions whose terms are `a(k / s) * g(k % s)` is the
/// product of the two sums.
proof fn lemma_sum_split(
    f: spec_fn(nat) -> nat,
    a: spec_fn(nat) -> nat,
    g: spec_fn(nat) -> nat,
    n: nat,
    s: nat,
)
    requires
        s > 0,
        forall|q: nat, r: nat| q < n && r < s ==> #[trigger] f(q * s + r) == a(q) * g(r),
    ensures
        sum_to(f, n * s) == sum_to(a, n) * sum_to(g, s),
    decreases n,
{
    if n == 0 {
        assert(0 * sum_to(g, s) == 0);
    } else {
        let n1 = (n - 1) as nat;
        lemma_sum_split(f, a, g, n1, s);
        let base = n1 * s;
        assert forall|r: nat| r < s implies #[trigger] f(base + r) == a(n1) * g(r) by {
        }
        lemma_sum_block(f, g, a(n1), base, s);
        assert(n * s == base + s) by (nonlinear_arith)
            requires
                base == n1 * s,
                n == n1 + 1,
        ;
        assert((sum_to(a, n1) + a(n1)) * sum_to(g, s) == sum_to(a, n1) * sum_to(g, s) + a(n1)
            * sum_to(g, s)) by (nonlinear_arith);
    }
}

/// Number of cells that a region's share of one touched chunk holds.
pub open spec fn share_numel(spans: Seq<AxisSpan>, local: Seq<u64>) -> nat {
    product(crate::chunk_grid::shapes_of(span_chunk_region(spans, local)))
}

/// Number of covered cells on every axis.
pub open spec fn span_lengths(spans: Seq<AxisSpan>) -> Seq<u64> {
    Seq::new(spans.len(), |i: int| (spans[i].end() - spans[i].begin()) as u64)
}

/// Number of covered cells in all shares together.
pub open spec fn shares_total(spans: Seq<AxisSpan>) -> nat {
    sum_to(
        |k: nat| share_numel(spans, unravel(k, span_counts(spans))),
        product(span_counts(spans)),
    )
}

impl AxisSpan {
    /// The first `n` touched chunks hold the covered cells up to where the
    /// next one starts.
    proof fn lemma_extent_sum(self, n: nat)
        requires
            self.ok(),
            n <= self.count(),
        ensures
            n > 0 ==> sum_to(|j: nat| self.extent(j) as nat, n) == self.out_start((n - 1) as nat)
                + self.extent((n - 1) as nat),
            n == 0 ==> sum_to(|j: nat| self.extent(j) as nat, n) == 0,
        decreases n,
    {
        if n > 0 {
            let n1 = (n - 1) as nat;
            self.lemma_extent_sum(n1);
            self.lemma_extent(n1);
            if n1 > 0 {
                self.lemma_extent((n1 - 1) as nat);
            }
        }
    }

    /// All touched chunks together hold exactly the covered cells.
    pub proof fn lemma_extent_total(self)
        requires
            self.ok(),
        ensures
            sum_to(|j: nat| self.extent(j) as nat, self.count()) == self.end() - self.begin(),
    {
        self.lemma_extent_sum(self.count());
        if self.count() > 0 {
            self.lemma_extent((self.count() - 1) as nat);
        } else {
            let c = self.chunk as int;
            let a = self.min_chunk as int;
            let b = self.max_chunk as int;
            if b < a {
                assert((b + 1) * c <= a * c) by (nonlinear_arith)
                    requires
                        b + 1 <= a,
                        c > 0,
                ;
                assert((b + 1) * c == b * c + c) by (nonlinear_arith);
            }
        }
    }
}

/// The shares of all touched chunks hold, together, as many cells as the
/// region covers: the product of the covered lengths of all axes.
pub proof fn lemma_shares_total(spans: Seq<AxisSpan>)
    requires
        spans_ok(spans),
    ensures
        shares_total(spans) == product(span_lengths(spans)),
    decreases spans.len(),
{
    let counts = span_counts(spans);
    let f = |k: nat| share_numel(spans, unravel(k, counts));
    if spans.len() == 0 {
        assert(sum_to(f, 1) == sum_to(f, 0) + f(0));
        assert(crate::chunk_grid::shapes_of(span_chunk_region(spans, Seq::<u64>::empty()))
            =~= Seq::<u64>::empty());
    } else {
        let pre = spans.drop_last();
        let last = spans.last();
        let cpre = span_counts(pre);
        let cl = last.count();
        assert(spans_ok(pre)) by {
            assert forall|i: int| 0 <= i < pre.len() implies (#[trigger] pre[i]).ok() by {
            }
        }
        lemma_shares_total(pre);
        last.lemma_extent_total();
        assert(cl <= u64::MAX) by {
            let b = last.max_chunk as int;
            let c = last.chunk as int;
            assert(b * c >= b) by (nonlinear_arith)
                requires
                    b >= 0,
                    c >= 1,
            ;
        }
        assert(counts.drop_last() =~= cpre);
        assert(span_lengths(spans).drop_last() =~= span_lengths(pre));
        let a = |q: nat| share_numel(pre, unravel(q, cpre));
        let g = |j: nat| last.extent(j) as nat;
        if cl == 0 {
            assert(product(cpre) * 0 == 0);
            assert(product(span_lengths(pre)) * 0 == 0);
        } else {
            assert forall|q: nat, r: nat| q < product(cpre) && r < cl implies #[trigger] f(
                q * cl + r,
            ) == a(q) * g(r) by {
                let k = q * cl + r;
                assert(k / cl == q && k % cl == r) by (nonlinear_arith)
                    requires
                        k == q * cl + r,
                        r < cl,
                ;
                let lp = unravel(q, cpre);
                lemma_unravel_len(q, cpre);
                let local = lp.push(r as u64);
                let whole = crate::chunk_grid::shapes_of(span_chunk_region(spans, local));
                let part = crate::chunk_grid::shapes_of(span_chunk_region(pre, lp));
                last.lemma_extent(r);
                assert(whole.drop_last() =~= part);
            }
            lemma_sum_split(f, a, g, product(cpre), cl);
        }
    }
}

/// Whether `pc` is the share of the touched chunk at position `local`.
pub open spec fn is_partial_chunk(
    pc: crate::chunk_grid::PartialChunk,
    spans: Seq<AxisSpan>,
    local: Seq<u64>,
) -> bool {
    &&& pc.chunk_idx@ == span_chunk_idx(spans, local)
    &&& pc.chunk_region@ == span_chunk_region(spans, local)
    &&& pc.out_region@ == span_out_region(spans, local)
}

/// Length of the chunks on every axis.
pub open spec fn span_chunks(spans: Seq<AxisSpan>) -> Seq<u64> {
    Seq::new(spans.len(), |i: int| spans[i].chunk)
}

impl AxisSpan {
    /// The `j`-th touched chunk starts at least `j` cells behind the first
    /// covered cell, so there are at most as many touched chunks as
    /// covered cells.
    pub proof fn lemma_count_le_length(self, j: nat)
        requires
            self.ok(),
            j < self.count(),
        ensures
            self.out_start(j) >= j,
            self.count() <= self.end() - self.begin(),
        decreases j,
    {
        self.lemma_extent(j);
        if j > 0 {
            self.lemma_count_le_length((j - 1) as nat);
            self.lemma_extent((j - 1) as nat);
        }
        let last = (self.count() - 1) as nat;
        if j < last {
            self.lemma_count_up(j, last);
        }
        self.lemma_extent(last);
    }

    proof fn lemma_count_up(self, j: nat, k: nat)
        requires
            self.ok(),
            j <= k < self.count(),
            self.out_start(j) >= j,
        ensures
            self.out_start(k) >= k,
        decreases k - j,
    {
        if j < k {
            self.lemma_extent(j);
            self.lemma_count_up(j + 1, k);
        }
    }
}

/// There are at most as many touched chunks as covered cells.
pub proof fn lemma_counts_le_lengths(spans: Seq<AxisSpan>)
    requires
        spans_ok(spans),
    ensures
        product(span_counts(spans)) <= product(span_lengths(spans)),
{
    let counts = span_counts(spans);
    let lengths = span_lengths(spans);
    assert forall|d: int| 0 <= d < counts.len() implies counts[d] <= lengths[d] by {
        if spans[d].count() > 0 {
            spans[d].lemma_count_le_length(0);
        }
        let b = spans[d].max_chunk as int;
        let c = spans[d].chunk as int;
        assert(b * c >= b) by (nonlinear_arith)
            requires
                b >= 0,
                c >= 1,
        ;
    }
    crate::ndarr::lemma_product_le(counts, lengths);
}

/// The share of a touched chunk lies within the chunk, its place lies
/// within the region, and both have the same extents.
pub proof fn lemma_share_regions(spans: Seq<AxisSpan>, local: Seq<u64>)
    requires
        spans_ok(spans),
        in_bounds(local, span_counts(spans)),
    ensures
        crate::ndarr::region_within(span_chunk_region(spans, local), span_chunks(spans)),
        crate::ndarr::region_within(span_out_region(spans, local), span_lengths(spans)),
        crate::chunk_grid::shapes_of(span_chunk_region(spans, local))
            == crate::chunk_grid::shapes_of(span_out_region(spans, local)),
        crate::chunk_grid::ends_fit(span_out_region(spans, local)),
        forall|d: int|
            0 <= d < spans.len() ==> spans[d].min_chunk + #[trigger] local[d] <= u64::MAX,
{
    let cr = span_chunk_region(spans, local);
    let or = span_out_region(spans, local);
    assert forall|d: int| 0 <= d < spans.len() implies cr[d].spec_end() <= span_chunks(spans)[d]
        && or[d].spec_end() <= span_lengths(spans)[d] && cr[d].shape == or[d].shape
        && spans[d].min_chunk + #[trigger] local[d] <= u64::MAX by {
        let b = spans[d].max_chunk as int;
        let c = spans[d].chunk as int;
        assert(b * c >= b) by (nonlinear_arith)
            requires
                b >= 0,
                c >= 1,
        ;
        spans[d].lemma_extent(local[d] as nat);
    }
    assert forall|d: int| 0 <= d < cr.len() implies (#[trigger] cr[d]).spec_end() <= span_chunks(
        spans,
    )[d] by {
    }
    assert forall|d: int| 0 <= d < or.len() implies (#[trigger] or[d]).spec_end() <= span_lengths(
        spans,
    )[d] by {
    }
    assert(crate::chunk_grid::shapes_of(cr) =~= crate::chunk_grid::shapes_of(or)) by {
        assert forall|d: int| 0 <= d < cr.len() implies cr[d].shape == or[d].shape by {
        }
    }
}

impl AxisSpan {
    /// The covered cell that lies `i` behind the first covered cell lies
    /// in the `j`-th touched chunk exactly when it lies in that chunk's
    /// stretch of the covered cells, and then its offset within the chunk
    /// is as far behind the chunk's first covered cell as the cell is
    /// behind the start of the stretch.
    pub proof fn lemma_cell(self, i: int, j: nat)
        requires
            self.ok(),
            0 <= i < self.end() - self.begin(),
            j < self.count(),
        ensures
            (self.out_start(j) <= i < self.out_start(j) + self.extent(j)) <==> (self.begin() + i) / (
            self.chunk as int) == self.min_chunk + j,
            (self.begin() + i) / (self.chunk as int) == self.min_chunk + j ==> (self.begin() + i) % (
            self.chunk as int) == self.chunk_start(j) + i - self.out_start(j),
    {
        let c = self.chunk as int;
        let a = self.min_chunk as int;
        let b = self.max_chunk as int;
        let p = self.min_offset as int;
        let q = self.max_offset as int;
        let jj = j as int;
        let x = self.begin() + i;
        self.lemma_extent(j);
        assert(a * c >= 0) by (nonlinear_arith)
            requires
                a >= 0,
                c >= 0,
        ;
        assert((a + jj) * c == a * c + jj * c) by (nonlinear_arith);
        assert(jj * c >= 0) by (nonlinear_arith)
            requires
                jj >= 0,
                c >= 0,
        ;
        crate::codecs::lemma_div_range(x, c, a + jj);
        vstd::arithmetic::div_mod::lemma_fundamental_div_mod(x, c);
        assert(c * (x / c) == (x / c) * c) by (nonlinear_arith);
        if jj > 0 {
            assert(c * (jj - 1) + c == jj * c) by (nonlinear_arith);
            if a + jj == b {
            }
        } else {
            if a == b {
            }
        }
    }

    /// Every covered cell lies in one of the touched chunks.
    pub proof fn lemma_cell_chunk(self, i: int)
        requires
            self.ok(),
            0 <= i < self.end() - self.begin(),
        ensures
            self.min_chunk <= (self.begin() + i) / (self.chunk as int),
            (self.begin() + i) / (self.chunk as int) - self.min_chunk < self.count(),
            (self.begin() + i) / (self.chunk as int) <= u64::MAX,
    {
        let c = self.chunk as int;
        let a = self.min_chunk as int;
        let b = self.max_chunk as int;
        let x = self.begin() + i;
        assert(a * c >= 0) by (nonlinear_arith)
            requires
                a >= 0,
                c >= 0,
        ;
        vstd::arithmetic::div_mod::lemma_fundamental_div_mod(x, c);
        vstd::arithmetic::div_mod::lemma_mod_bound(x, c);
        let k = x / c;
        assert(k >= a) by (nonlinear_arith)
            requires
                k * c + x % c >= a * c,
                x % c < c,
                c > 0,
        ;
        assert(k <= b) by (nonlinear_arith)
            requires
                k * c + x % c < b * c + c,
                x % c >= 0,
                c > 0,
        ;
        if self.max_offset == 0 {
            assert(k < b) by (nonlinear_arith)
                requires
                    k * c + x % c < b * c,
                    x % c >= 0,
                    c > 0,
            ;
        }
        assert(b * c >= b) by (nonlinear_arith)
            requires
                b >= 0,
                c >= 1,
        ;
    }
}

impl AxisSpan {
    /// A cell of a touched chunk is covered exactly when its offset in
    /// the chunk lies in the covered part of the chunk.
    pub proof fn lemma_chunk_cell(self, x: int, j: nat)
        requires
            self.ok(),
            0 <= x,
            j < self.count(),
            x / (self.chunk as int) == self.min_chunk + j,
        ensures
            (self.begin() <= x < self.end()) <==> (self.chunk_start(j) <= x % (self.chunk as int)
                < self.chunk_stop(j)),
            0 <= x % (self.chunk as int) < self.chunk,
    {
        let c = self.chunk as int;
        let a = self.min_chunk as int;
        let b = self.max_chunk as int;
        let jj = j as int;
        self.lemma_extent(j);
        vstd::arithmetic::div_mod::lemma_fundamental_div_mod(x, c);
        vstd::arithmetic::div_mod::lemma_mod_bound(x, c);
        assert(c * (x / c) == a * c + jj * c) by (nonlinear_arith)
            requires
                x / c == a + jj,
        ;
        assert(jj * c >= c || jj == 0) by (nonlinear_arith)
            requires
                jj >= 0,
                c > 0,
        ;
        assert(b * c == a * c + jj * c + (b - a - jj) * c) by (nonlinear_arith);
        assert((b - a - jj) * c >= c || b - a - jj == 0) by (nonlinear_arith)
            requires
                b - a - jj >= 0,
                c > 0,
        ;
    }
}

/// Touched chunks at different positions have different indices.
pub proof fn lemma_chunk_idx_injective(spans: Seq<AxisSpan>, l1: Seq<u64>, l2: Seq<u64>)
    requires
        spans_ok(spans),
        in_bounds(l1, span_counts(spans)),
        in_bounds(l2, span_counts(spans)),
        span_chunk_idx(spans, l1) == span_chunk_idx(spans, l2),
    ensures
        l1 == l2,
{
    lemma_share_regions(spans, l1);
    lemma_share_regions(spans, l2);
    assert forall|d: int| 0 <= d < spans.len() implies l1[d] == l2[d] by {
        assert(span_chunk_idx(spans, l2)[d] == spans[d].min_chunk + l2[d]);
    }
}

/// The cell that lies `i` behind the first covered cell.
pub open spec fn span_cell(spans: Seq<AxisSpan>, i: Seq<u64>) -> Seq<u64> {
    Seq::new(spans.len(), |d: int| (spans[d].begin() + i[d]) as u64)
}

/// Position, among the touched chunks of every axis, of the chunk that
/// holds the cell that lies `i` behind the first covered cell.
pub open spec fn span_local(spans: Seq<AxisSpan>, i: Seq<u64>) -> Seq<u64> {
    Seq::new(
        spans.len(),
        |d: int|
            (crate::chunk_grid::chunk_of(spans[d].begin() + i[d], spans[d].chunk)
                - spans[d].min_chunk) as u64,
    )
}

/// Every covered cell lies in one touched chunk.
pub proof fn lemma_span_local(spans: Seq<AxisSpan>, i: Seq<u64>)
    requires
        spans_ok(spans),
        in_bounds(i, span_lengths(spans)),
    ensures
        in_bounds(span_local(spans, i), span_counts(spans)),
        span_cell(spans, i).len() == spans.len(),
        forall|d: int|
            0 <= d < spans.len() ==> #[trigger] span_cell(spans, i)[d] == spans[d].begin() + i[d],
{
    let l = span_local(spans, i);
    let counts = span_counts(spans);
    assert forall|d: int| 0 <= d < spans.len() implies l[d] < counts[d] by {
        spans[d].lemma_cell_chunk(i[d] as int);
        spans[d].lemma_count_le_length(0);
    }
    assert forall|d: int| 0 <= d < spans.len() implies #[trigger] span_cell(spans, i)[d]
        == spans[d].begin() + i[d] by {
    }
}

/// A covered cell lies in the place of a touched chunk's share exactly
/// when it lies in that chunk; then the chunk has the index of the share,
/// and the cell lies in the chunk where the share says.
pub proof fn lemma_span_cell(spans: Seq<AxisSpan>, i: Seq<u64>, local: Seq<u64>)
    requires
        spans_ok(spans),
        in_bounds(i, span_lengths(spans)),
        in_bounds(local, span_counts(spans)),
    ensures
        crate::ndarr::in_region(i, span_out_region(spans, local)) <==> span_local(spans, i)
            == local,
        span_local(spans, i) == local ==> {
            &&& crate::chunk_grid::voxel_chunk_index(span_cell(spans, i), span_chunks(spans))
                == span_chunk_idx(spans, local)
            &&& crate::chunk_grid::voxel_chunk_offset(span_cell(spans, i), span_chunks(spans))
                == crate::ndarr::shift(
                crate::ndarr::unshift(i, span_out_region(spans, local)),
                span_chunk_region(spans, local),
            )
        },
{
    lemma_span_local(spans, i);
    lemma_share_regions(spans, local);
    let or = span_out_region(spans, local);
    let cr = span_chunk_region(spans, local);
    let l = span_local(spans, i);
    let x = span_cell(spans, i);
    assert forall|d: int| 0 <= d < spans.len() implies ((or[d].offset <= i[d] && i[d]
        < or[d].spec_end()) <==> l[d] == local[d]) && (l[d] == local[d]
        ==> crate::chunk_grid::chunk_of(x[d] as int, spans[d].chunk) == spans[d].min_chunk
        + local[d] && crate::chunk_grid::offset_in_chunk(x[d] as int, spans[d].chunk) == (i[d]
        - or[d].offset) + cr[d].offset) by {
        spans[d].lemma_cell(i[d] as int, local[d] as nat);
        spans[d].lemma_cell_chunk(i[d] as int);
        spans[d].lemma_extent(local[d] as nat);
    }
    if crate::ndarr::in_region(i, or) {
        assert forall|d: int| 0 <= d < spans.len() implies l[d] == local[d] by {
        }
        assert(l =~= local);
    }
    if l == local {
        assert forall|d: int| 0 <= d < or.len() implies (#[trigger] or[d]).offset <= i[d] && i[d]
            < or[d].spec_end() by {
            assert(l[d] == local[d]);
        }
        assert(crate::chunk_grid::voxel_chunk_index(x, span_chunks(spans)) =~= span_chunk_idx(
            spans,
            local,
        ));
        assert(crate::chunk_grid::voxel_chunk_offset(x, span_chunks(spans))
            =~= crate::ndarr::shift(crate::ndarr::unshift(i, or), cr)) by {
            assert forall|d: int| 0 <= d < spans.len() implies crate::chunk_grid::voxel_chunk_offset(
                x,
                span_chunks(spans),
            )[d] == crate::ndarr::shift(crate::ndarr::unshift(i, or), cr)[d] by {
                assert(l[d] == local[d]);
            }
        }
    }
}

} // verus!
