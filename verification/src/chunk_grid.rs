use crate::chunk_arr::span_counts;
use crate::chunk_arr::spans_of;
use crate::chunk_arr::AxisSpan;
use crate::chunk_arr::PartialChunkIter;
use crate::coord::product;
use crate::coord::GridCoord;
use vstd::prelude::*;

verus! {

/// An interval along one axis: `shape` cells starting at `offset`.
#[derive(Clone, Copy, Debug, PartialEq, Eq, Structural)]
pub struct ArraySlice {
    pub offset: u64,
    pub shape: u64,
}

impl ArraySlice {
    /// One past the last cell of the interval.
    pub open spec fn spec_end(self) -> int {
        self.offset + self.shape
    }

    /// What clipping the interval to an axis of `max` cells leaves: nothing
    /// when the interval starts at or behind the axis' end.
    pub open spec fn spec_limit_extent(self, max: u64) -> Option<ArraySlice> {
        if self.offset >= max {
            None
        } else if self.spec_end() <= max {
            Some(self)
        } else {
            Some(ArraySlice { offset: self.offset, shape: (max - self.offset) as u64 })
        }
    }

    pub fn new(offset: u64, shape: u64) -> (s: ArraySlice)
        ensures
            s == (ArraySlice { offset, shape }),
    {
        ArraySlice { offset, shape }
    }

    /// The interval from `offset` up to `max_shape`, where `offset` does not
    /// lie behind it.
    pub fn from_max(offset: u64, max_shape: u64) -> (r: Option<ArraySlice>)
        ensures
            offset > max_shape ==> r.is_none(),
            offset <= max_shape ==> r == Some(
                (ArraySlice { offset, shape: (max_shape - offset) as u64 }),
            ),
    {
        if offset > max_shape {
            None
        } else {
            Some(ArraySlice::new(offset, max_shape - offset))
        }
    }

    pub fn end(&self) -> (e: u64)
        requires
            self.spec_end() <= u64::MAX,
        ensures
            e == self.spec_end(),
    {
        self.offset + self.shape
    }

    /// Clips the interval to an axis of `max` cells.
    pub fn limit_extent(&self, max: u64) -> (r: Option<ArraySlice>)
        ensures
            r == self.spec_limit_extent(max),
    {
        if self.offset >= max {
            None
        } else if self.shape <= max - self.offset {
            Some(*self)
        } else {
            Some(ArraySlice::new(self.offset, max - self.offset))
        }
    }
}

/// An axis-aligned box: one interval per axis.
#[derive(Debug)]
pub struct ArrayRegion {
    pub slices: Vec<ArraySlice>,
}

impl View for ArrayRegion {
    type V = Seq<ArraySlice>;

    open spec fn view(&self) -> Seq<ArraySlice> {
        self.slices@
    }
}

impl Clone for ArrayRegion {
    fn clone(&self) -> (r: ArrayRegion)
        ensures
            r@ == self@,
    {
        ArrayRegion { slices: self.slices.clone() }
    }
}

impl PartialEq for ArrayRegion {
    fn eq(&self, other: &ArrayRegion) -> (b: bool) {
        if self.slices.len() != other.slices.len() {
            return false;
        }
        let mut i: usize = 0;
        while i < self.slices.len()
            invariant
                self@.len() == other@.len(),
                i <= self@.len(),
                forall|j: int| 0 <= j < i ==> self@[j] == other@[j],
            decreases self@.len() - i,
        {
            if self.slices[i] != other.slices[i] {
                return false;
            }
            i += 1;
        }
        assert(self@ =~= other@);
        true
    }
}

impl vstd::std_specs::cmp::PartialEqSpecImpl for ArrayRegion {
    open spec fn obeys_eq_spec() -> bool {
        true
    }

    open spec fn eq_spec(&self, other: &ArrayRegion) -> bool {
        self@ == other@
    }
}

impl Eq for ArrayRegion {

}

/// Offsets of the intervals of a region.
pub open spec fn offsets_of(r: Seq<ArraySlice>) -> Seq<u64> {
    Seq::new(r.len(), |i: int| r[i].offset)
}

/// Extents of the intervals of a region.
pub open spec fn shapes_of(r: Seq<ArraySlice>) -> Seq<u64> {
    Seq::new(r.len(), |i: int| r[i].shape)
}

/// The smaller of two lengths.
pub open spec fn min_len(a: nat, b: nat) -> nat {
    if a <= b {
        a
    } else {
        b
    }
}

/// The intervals made of paired offsets and extents, as far as both reach.
pub open spec fn zip_offset_shape(offset: Seq<u64>, shape: Seq<u64>) -> Seq<ArraySlice> {
    Seq::new(
        min_len(offset.len(), shape.len()),
        |i: int| ArraySlice { offset: offset[i], shape: shape[i] },
    )
}

/// Whether every interval ends within `u64`.
pub open spec fn ends_fit(r: Seq<ArraySlice>) -> bool {
    forall|i: int| 0 <= i < r.len() ==> (#[trigger] r[i]).spec_end() <= u64::MAX
}

/// Whether the region covers exactly the axes `0..shape[d]`, on the axes
/// that both have.
pub open spec fn covers_whole(r: Seq<ArraySlice>, shape: Seq<u64>) -> bool {
    forall|i: int|
        0 <= i < r.len() && i < shape.len() ==> (#[trigger] r[i]).offset == 0 && r[i].shape
            == shape[i]
}

/// Whether clipping to `max` leaves something on every axis that both have.
pub open spec fn clip_nonempty(r: Seq<ArraySlice>, max: Seq<u64>) -> bool {
    forall|i: int| 0 <= i < r.len() && i < max.len() ==> (#[trigger] r[i]).offset < max[i]
}

/// The region clipped to `max`, axis by axis, as far as both reach.
pub open spec fn clipped(r: Seq<ArraySlice>, max: Seq<u64>) -> Seq<ArraySlice> {
    Seq::new(min_len(r.len(), max.len()), |i: int| r[i].spec_limit_extent(max[i]).unwrap())
}

impl ArrayRegion {
    /// Number of cells of the region; none for a region without axes.
    pub open spec fn spec_numel(self) -> Option<nat> {
        if self@.len() == 0 {
            None
        } else {
            Some(product(shapes_of(self@)))
        }
    }

    /// A region made of the given intervals.
    pub fn from_vec(slices: Vec<ArraySlice>) -> (r: ArrayRegion)
        ensures
            r@ == slices@,
    {
        ArrayRegion { slices }
    }

    pub fn ndim(&self) -> (n: usize)
        ensures
            n == self@.len(),
    {
        self.slices.len()
    }

    /// The region of the same extents that starts at the origin.
    pub fn at_origin(&self) -> (r: ArrayRegion)
        ensures
            r@.len() == self@.len(),
            forall|i: int|
                0 <= i < self@.len() ==> r@[i] == (ArraySlice { offset: 0, shape: self@[i].shape }),
    {
        let mut out: Vec<ArraySlice> = Vec::new();
        let mut i: usize = 0;
        while i < self.slices.len()
            invariant
                i <= self@.len(),
                out@.len() == i,
                forall|j: int|
                    0 <= j < i ==> out@[j] == (ArraySlice { offset: 0, shape: self@[j].shape }),
            decreases self@.len() - i,
        {
            out.push(ArraySlice::new(0, self.slices[i].shape));
            i += 1;
        }
        ArrayRegion { slices: out }
    }

    /// Whether the region covers `shape` on the axes that both have.
    pub fn is_whole_unchecked(&self, shape: &[u64]) -> (b: bool)
        ensures
            b == covers_whole(self@, shape@),
    {
        let mut i: usize = 0;
        while i < self.slices.len() && i < shape.len()
            invariant
                i <= self@.len(),
                i <= shape@.len(),
                forall|j: int|
                    0 <= j < i ==> (#[trigger] self@[j]).offset == 0 && self@[j].shape == shape@[j],
            decreases self@.len() - i,
        {
            if !(self.slices[i].offset == 0 && self.slices[i].shape == shape[i]) {
                return false;
            }
            i += 1;
        }
        true
    }

    /// Whether the region is the whole of an array of the given shape.
    pub fn is_whole(&self, shape: &[u64]) -> (b: bool)
        requires
            shape@.len() == self@.len(),
        ensures
            b == covers_whole(self@, shape@),
    {
        self.is_whole_unchecked(shape)
    }

    /// Pairs offsets with extents, as far as both reach.
    pub fn from_offset_shape_unchecked(offset: &[u64], shape: &[u64]) -> (r: ArrayRegion)
        ensures
            r@ == zip_offset_shape(offset@, shape@),
    {
        let mut out: Vec<ArraySlice> = Vec::new();
        let mut i: usize = 0;
        while i < offset.len() && i < shape.len()
            invariant
                i <= offset@.len(),
                i <= shape@.len(),
                out@.len() == i,
                forall|j: int|
                    0 <= j < i ==> out@[j] == (ArraySlice { offset: offset@[j], shape: shape@[j] }),
            decreases offset@.len() - i,
        {
            out.push(ArraySlice::new(offset[i], shape[i]));
            i += 1;
        }
        ArrayRegion { slices: out }
    }

    /// The region with the given offsets and extents.
    pub fn from_offset_shape(offset: &[u64], shape: &[u64]) -> (r: ArrayRegion)
        requires
            offset@.len() == shape@.len(),
        ensures
            r@ == zip_offset_shape(offset@, shape@),
            r@.len() == offset@.len(),
    {
        ArrayRegion::from_offset_shape_unchecked(offset, shape)
    }

    /// The region from `offset` up to `max`, where no offset lies behind
    /// its maximum.
    pub fn from_max(offset: &[u64], max: &[u64]) -> (r: Option<ArrayRegion>)
        requires
            offset@.len() == max@.len(),
        ensures
            (forall|i: int| 0 <= i < offset@.len() ==> offset@[i] <= max@[i]) <==> r.is_some(),
            r matches Some(reg) ==> reg@.len() == offset@.len() && forall|i: int|
                0 <= i < offset@.len() ==> reg@[i] == (ArraySlice {
                    offset: offset@[i],
                    shape: (max@[i] - offset@[i]) as u64,
                }),
    {
        let mut out: Vec<ArraySlice> = Vec::new();
        let mut i: usize = 0;
        while i < offset.len()
            invariant
                offset@.len() == max@.len(),
                i <= offset@.len(),
                out@.len() == i,
                forall|j: int| 0 <= j < i ==> offset@[j] <= max@[j],
                forall|j: int|
                    0 <= j < i ==> out@[j] == (ArraySlice {
                        offset: offset@[j],
                        shape: (max@[j] - offset@[j]) as u64,
                    }),
            decreases offset@.len() - i,
        {
            match ArraySlice::from_max(offset[i], max[i]) {
                Some(s) => {
                    out.push(s);
                },
                None => {
                    return None;
                },
            }
            i += 1;
        }
        Some(ArrayRegion { slices: out })
    }

    pub fn offset(&self) -> (c: GridCoord)
        ensures
            c@ == offsets_of(self@),
    {
        let mut out: Vec<u64> = Vec::new();
        let mut i: usize = 0;
        while i < self.slices.len()
            invariant
                i <= self@.len(),
                out@.len() == i,
                forall|j: int| 0 <= j < i ==> out@[j] == self@[j].offset,
            decreases self@.len() - i,
        {
            out.push(self.slices[i].offset);
            i += 1;
        }
        GridCoord::from_vec(out)
    }

    pub fn shape(&self) -> (c: GridCoord)
        ensures
            c@ == shapes_of(self@),
    {
        let mut out: Vec<u64> = Vec::new();
        let mut i: usize = 0;
        while i < self.slices.len()
            invariant
                i <= self@.len(),
                out@.len() == i,
                forall|j: int| 0 <= j < i ==> out@[j] == self@[j].shape,
            decreases self@.len() - i,
        {
            out.push(self.slices[i].shape);
            i += 1;
        }
        GridCoord::from_vec(out)
    }

    /// The corner one past the last cell on every axis.
    pub fn end(&self) -> (c: GridCoord)
        requires
            ends_fit(self@),
        ensures
            c@.len() == self@.len(),
            forall|i: int| 0 <= i < self@.len() ==> c@[i] == self@[i].spec_end(),
    {
        let mut out: Vec<u64> = Vec::new();
        let mut i: usize = 0;
        while i < self.slices.len()
            invariant
                ends_fit(self@),
                i <= self@.len(),
                out@.len() == i,
                forall|j: int| 0 <= j < i ==> out@[j] == self@[j].spec_end(),
            decreases self@.len() - i,
        {
            out.push(self.slices[i].end());
            i += 1;
        }
        GridCoord::from_vec(out)
    }

    /// Number of cells of the region; none for a region without axes.
    pub fn numel(&self) -> (n: Option<u64>)
        requires
            product(shapes_of(self@)) <= u64::MAX,
        ensures
            self.spec_numel() matches Some(p) ==> n == Some(p as u64),
            self.spec_numel().is_none() ==> n.is_none(),
    {
        if self.slices.len() == 0 {
            return None;
        }
        let shape = self.shape();
        let n = crate::coord::checked_numel(shape.as_slice());
        match n {
            Some(v) => Some(v as u64),
            None => {
                // the product fits in u64 but not in usize
                Some(wide_product(shape.as_slice()))
            },
        }
    }

    /// Clips the region to an array of extents `max`.
    pub fn limit_extent(&self, max: &[u64]) -> (r: Option<ArrayRegion>)
        requires
            max@.len() == self@.len(),
        ensures
            clip_nonempty(self@, max@) <==> r.is_some(),
            r matches Some(reg) ==> reg@ == clipped(self@, max@),
    {
        self.limit_extent_unchecked(max)
    }

    /// Clips the region to extents `max`, on the axes that both have.
    pub fn limit_extent_unchecked(&self, max: &[u64]) -> (r: Option<ArrayRegion>)
        ensures
            clip_nonempty(self@, max@) <==> r.is_some(),
            r matches Some(reg) ==> reg@ == clipped(self@, max@),
    {
        let mut out: Vec<ArraySlice> = Vec::new();
        let mut i: usize = 0;
        while i < self.slices.len() && i < max.len()
            invariant
                i <= self@.len(),
                i <= max@.len(),
                out@.len() == i,
                forall|j: int| 0 <= j < i ==> (#[trigger] self@[j]).offset < max@[j],
                forall|j: int|
                    0 <= j < i ==> out@[j] == self@[j].spec_limit_extent(max@[j]).unwrap(),
            decreases self@.len() - i,
        {
            match self.slices[i].limit_extent(max[i]) {
                Some(s) => {
                    out.push(s);
                },
                None => {
                    return None;
                },
            }
            i += 1;
        }
        Some(ArrayRegion { slices: out })
    }
}

/// Product of the entries of a shape, in `u64`.
pub fn wide_product(shape: &[u64]) -> (p: u64)
    requires
        product(shape@) <= u64::MAX,
    ensures
        p == product(shape@),
{
    let mut i: usize = 0;
    while i < shape.len()
        invariant
            i <= shape@.len(),
            forall|j: int| 0 <= j < i ==> shape@[j] != 0,
        decreases shape@.len() - i,
    {
        if shape[i] == 0 {
            proof {
                crate::coord::lemma_product_zero(shape@, i as int);
            }
            return 0;
        }
        i += 1;
    }
    let mut acc: u64 = 1;
    let mut k: usize = 0;
    while k < shape.len()
        invariant
            k <= shape@.len(),
            acc == product(shape@.take(k as int)),
            product(shape@) <= u64::MAX,
            forall|j: int| 0 <= j < shape@.len() ==> shape@[j] > 0,
        decreases shape@.len() - k,
    {
        proof {
            crate::coord::lemma_product_prefix(shape@, k as int + 1);
            assert(shape@.take(k as int + 1).drop_last() =~= shape@.take(k as int));
        }
        acc = acc * shape[k];
        k += 1;
    }
    proof {
        assert(shape@.take(k as int) =~= shape@);
    }
    acc
}

/// One chunk's share of a region: which chunk, which part of the chunk (in
/// the chunk's own coordinates), and where that part lies in the region (in
/// coordinates relative to the region's first cell).
#[derive(Debug)]
pub struct PartialChunk {
    pub chunk_idx: GridCoord,
    pub chunk_region: ArrayRegion,
    pub out_region: ArrayRegion,
}

impl PartialChunk {
    pub fn new(chunk_idx: GridCoord, chunk_region: ArrayRegion, out_region: ArrayRegion) -> (p:
        PartialChunk)
        requires
            chunk_region@.len() == chunk_idx@.len(),
            out_region@.len() == chunk_idx@.len(),
        ensures
            p.chunk_idx@ == chunk_idx@,
            p.chunk_region@ == chunk_region@,
            p.out_region@ == out_region@,
    {
        PartialChunk::new_unchecked(chunk_idx, chunk_region, out_region)
    }

    pub fn new_unchecked(
        chunk_idx: GridCoord,
        chunk_region: ArrayRegion,
        out_region: ArrayRegion,
    ) -> (p: PartialChunk)
        ensures
            p.chunk_idx@ == chunk_idx@,
            p.chunk_region@ == chunk_region@,
            p.out_region@ == out_region@,
    {
        PartialChunk { chunk_idx, chunk_region, out_region }
    }
}

/// Whether every entry of a shape is positive.
pub open spec fn all_positive(shape: Seq<u64>) -> bool {
    forall|i: int| 0 <= i < shape.len() ==> shape[i] > 0
}

/// Index of the chunk that holds cell `x` of an axis cut into chunks of
/// `chunk` cells.
pub open spec fn chunk_of(x: int, chunk: u64) -> u64 {
    if chunk == 0 || x < 0 || x > u64::MAX {
        0
    } else {
        (x / (chunk as int)) as u64
    }
}

/// Offset of cell `x` within its chunk.
pub open spec fn offset_in_chunk(x: int, chunk: u64) -> u64 {
    if chunk == 0 || x < 0 || x > u64::MAX {
        0
    } else {
        (x % (chunk as int)) as u64
    }
}

/// Chunk index of a voxel, axis by axis, on the axes that both have.
pub open spec fn voxel_chunk_index(idx: Seq<u64>, chunk_shape: Seq<u64>) -> Seq<u64> {
    Seq::new(min_len(idx.len(), chunk_shape.len()), |i: int| chunk_of(idx[i] as int, chunk_shape[i]))
}

/// Offset of a voxel within its chunk, axis by axis, on the axes that both
/// have.
pub open spec fn voxel_chunk_offset(idx: Seq<u64>, chunk_shape: Seq<u64>) -> Seq<u64> {
    Seq::new(min_len(idx.len(), chunk_shape.len()), |i: int| offset_in_chunk(idx[i] as int, chunk_shape[i]))
}

/// The spans that a region cuts out of a regular grid, axis by axis.
pub open spec fn region_spans(r: Seq<ArraySlice>, chunk_shape: Seq<u64>) -> Seq<AxisSpan> {
    Seq::new(
        r.len(),
        |i: int|
            AxisSpan {
                min_chunk: chunk_of(r[i].offset as int, chunk_shape[i]),
                min_offset: offset_in_chunk(r[i].offset as int, chunk_shape[i]),
                max_chunk: chunk_of(r[i].spec_end(), chunk_shape[i]),
                max_offset: offset_in_chunk(r[i].spec_end(), chunk_shape[i]),
                chunk: chunk_shape[i],
            },
    )
}

/// The spans of a region are sound, and their covered lengths are the
/// region's extents.
pub proof fn lemma_region_spans(r: Seq<ArraySlice>, chunk_shape: Seq<u64>)
    requires
        r.len() == chunk_shape.len(),
        all_positive(chunk_shape),
        ends_fit(r),
    ensures
        crate::chunk_arr::spans_ok(region_spans(r, chunk_shape)),
        crate::chunk_arr::span_lengths(region_spans(r, chunk_shape)) == shapes_of(r),
{
    let spans = region_spans(r, chunk_shape);
    assert forall|i: int| 0 <= i < spans.len() implies (#[trigger] spans[i]).ok() && spans[i].end()
        - spans[i].begin() == r[i].shape by {
        let c = chunk_shape[i] as int;
        let o = r[i].offset as int;
        let e = r[i].spec_end();
        vstd::arithmetic::div_mod::lemma_fundamental_div_mod(o, c);
        vstd::arithmetic::div_mod::lemma_fundamental_div_mod(e, c);
        vstd::arithmetic::div_mod::lemma_div_is_ordered(o, e, c);
        vstd::arithmetic::div_mod::lemma_mod_bound(o, c);
        vstd::arithmetic::div_mod::lemma_mod_bound(e, c);
        vstd::arithmetic::div_mod::lemma_div_pos_is_pos(o, c);
        vstd::arithmetic::div_mod::lemma_div_pos_is_pos(e, c);
        vstd::arithmetic::div_mod::lemma_div_nonincreasing(o, c);
        vstd::arithmetic::div_mod::lemma_div_nonincreasing(e, c);
        assert(c * (o / c) == (o / c) * c) by (nonlinear_arith);
        assert(c * (e / c) == (e / c) * c) by (nonlinear_arith);
    }
}

/// A region clipped to a shape that it reaches lies within the shape and
/// starts where the region starts.
pub proof fn lemma_clipped(r: Seq<ArraySlice>, max: Seq<u64>)
    requires
        r.len() == max.len(),
        clip_nonempty(r, max),
    ensures
        crate::ndarr::region_within(clipped(r, max), max),
        ends_fit(clipped(r, max)),
        offsets_of(clipped(r, max)) == offsets_of(r),
        forall|d: int|
            0 <= d < r.len() ==> (#[trigger] clipped(r, max)[d]).shape <= r[d].shape,
{
    let c = clipped(r, max);
    assert forall|d: int| 0 <= d < c.len() implies (#[trigger] c[d]).spec_end() <= max[d]
        && c[d].offset == r[d].offset && c[d].shape <= r[d].shape by {
    }
}

/// In every chunk of a regular grid, a cell lies within the chunk.
pub proof fn lemma_voxel_offset(x: Seq<u64>, chunk_shape: Seq<u64>)
    requires
        x.len() == chunk_shape.len(),
        all_positive(chunk_shape),
    ensures
        crate::chunk_arr::in_bounds(voxel_chunk_offset(x, chunk_shape), chunk_shape),
        voxel_chunk_index(x, chunk_shape).len() == x.len(),
{
    assert forall|d: int| 0 <= d < chunk_shape.len() implies voxel_chunk_offset(x, chunk_shape)[d]
        < chunk_shape[d] by {
        vstd::arithmetic::div_mod::lemma_mod_bound(x[d] as int, chunk_shape[d] as int);
    }
}

/// The span of every axis of a region starts and ends where the region
/// does.
pub proof fn lemma_span_ends(r: Seq<ArraySlice>, chunk_shape: Seq<u64>, d: int)
    requires
        r.len() == chunk_shape.len(),
        all_positive(chunk_shape),
        ends_fit(r),
        0 <= d < r.len(),
    ensures
        region_spans(r, chunk_shape)[d].begin() == r[d].offset,
        region_spans(r, chunk_shape)[d].end() == r[d].spec_end(),
        region_spans(r, chunk_shape)[d].chunk == chunk_shape[d],
{
    let c = chunk_shape[d] as int;
    let o = r[d].offset as int;
    let e = r[d].spec_end();
    vstd::arithmetic::div_mod::lemma_fundamental_div_mod(o, c);
    vstd::arithmetic::div_mod::lemma_fundamental_div_mod(e, c);
    vstd::arithmetic::div_mod::lemma_mod_bound(o, c);
    vstd::arithmetic::div_mod::lemma_mod_bound(e, c);
    assert(c * (o / c) == (o / c) * c) by (nonlinear_arith);
    assert(c * (e / c) == (e / c) * c) by (nonlinear_arith);
    assert(0 <= o / c <= o) by (nonlinear_arith)
        requires
            o == c * (o / c) + o % c,
            0 <= o % c < c,
            c >= 1,
            o >= 0,
    ;
    assert(0 <= e / c <= e) by (nonlinear_arith)
        requires
            e == c * (e / c) + e % c,
            0 <= e % c < c,
            c >= 1,
            e >= 0,
    ;
}

/// A cell of a chunk that the region touches lies in the region exactly
/// when it lies in the part of the chunk that the region covers.
pub proof fn lemma_touched_cell(
    r: Seq<ArraySlice>,
    chunk_shape: Seq<u64>,
    x: Seq<u64>,
    local: Seq<u64>,
)
    requires
        r.len() == chunk_shape.len(),
        all_positive(chunk_shape),
        ends_fit(r),
        x.len() == r.len(),
        crate::chunk_arr::in_bounds(local, span_counts(region_spans(r, chunk_shape))),
        voxel_chunk_index(x, chunk_shape) == crate::chunk_arr::span_chunk_idx(
            region_spans(r, chunk_shape),
            local,
        ),
    ensures
        crate::ndarr::in_region(x, r) <==> crate::ndarr::in_region(
            voxel_chunk_offset(x, chunk_shape),
            crate::chunk_arr::span_chunk_region(region_spans(r, chunk_shape), local),
        ),
{
    let spans = region_spans(r, chunk_shape);
    let cr = crate::chunk_arr::span_chunk_region(spans, local);
    let off = voxel_chunk_offset(x, chunk_shape);
    let idx = voxel_chunk_index(x, chunk_shape);
    lemma_region_spans(r, chunk_shape);
    crate::chunk_arr::lemma_share_regions(spans, local);
    assert forall|d: int| 0 <= d < r.len() implies ((r[d].offset <= x[d] && x[d]
        < r[d].spec_end()) <==> (cr[d].offset <= off[d] && off[d] < cr[d].spec_end())) by {
        lemma_span_ends(r, chunk_shape, d);
        assert(idx[d] == crate::chunk_arr::span_chunk_idx(spans, local)[d]);
        spans[d].lemma_extent(local[d] as nat);
        spans[d].lemma_chunk_cell(x[d] as int, local[d] as nat);
    }
    if crate::ndarr::in_region(x, r) {
        assert forall|d: int| 0 <= d < cr.len() implies (#[trigger] cr[d]).offset <= off[d]
            && off[d] < cr[d].spec_end() by {
        }
    }
    if crate::ndarr::in_region(off, cr) {
        assert forall|d: int| 0 <= d < r.len() implies (#[trigger] r[d]).offset <= x[d] && x[d]
            < r[d].spec_end() by {
        }
    }
}

/// Every cell of a region lies in a chunk that the region touches, in the
/// part of that chunk that the region covers.
pub proof fn lemma_region_cell(r: Seq<ArraySlice>, chunk_shape: Seq<u64>, x: Seq<u64>)
    requires
        r.len() == chunk_shape.len(),
        all_positive(chunk_shape),
        ends_fit(r),
        crate::ndarr::in_region(x, r),
    ensures
        ({
            let spans = region_spans(r, chunk_shape);
            let i = crate::ndarr::unshift(x, r);
            let local = crate::chunk_arr::span_local(spans, i);
            let cr = crate::chunk_arr::span_chunk_region(spans, local);
            let or = crate::chunk_arr::span_out_region(spans, local);
            &&& crate::chunk_arr::in_bounds(i, shapes_of(r))
            &&& crate::chunk_arr::in_bounds(local, span_counts(spans))
            &&& voxel_chunk_index(x, chunk_shape) == crate::chunk_arr::span_chunk_idx(spans, local)
            &&& crate::ndarr::in_region(voxel_chunk_offset(x, chunk_shape), cr)
            &&& crate::ndarr::shift(
                crate::ndarr::unshift(voxel_chunk_offset(x, chunk_shape), cr),
                or,
            ) == i
        }),
{
    let spans = region_spans(r, chunk_shape);
    let i = crate::ndarr::unshift(x, r);
    let local = crate::chunk_arr::span_local(spans, i);
    let cr = crate::chunk_arr::span_chunk_region(spans, local);
    let or = crate::chunk_arr::span_out_region(spans, local);
    crate::ndarr::lemma_unshift(x, r);
    lemma_region_spans(r, chunk_shape);
    crate::chunk_arr::lemma_span_local(spans, i);
    crate::chunk_arr::lemma_span_cell(spans, i, local);
    lemma_region_cells(r, chunk_shape, i);
    crate::chunk_arr::lemma_share_regions(spans, local);
    let u = crate::ndarr::unshift(i, or);
    crate::ndarr::lemma_unshift(i, or);
    crate::ndarr::lemma_shift(u, cr, chunk_shape);
}

/// The spans of a region count its cells from its first cell, on a grid of
/// the given chunks.
pub proof fn lemma_region_cells(r: Seq<ArraySlice>, chunk_shape: Seq<u64>, i: Seq<u64>)
    requires
        r.len() == chunk_shape.len(),
        all_positive(chunk_shape),
        ends_fit(r),
        crate::chunk_arr::in_bounds(i, shapes_of(r)),
    ensures
        crate::chunk_arr::span_cell(region_spans(r, chunk_shape), i) == crate::ndarr::shift(i, r),
        crate::chunk_arr::span_chunks(region_spans(r, chunk_shape)) == chunk_shape,
{
    lemma_region_spans(r, chunk_shape);
    let spans = region_spans(r, chunk_shape);
    assert forall|d: int| 0 <= d < r.len() implies crate::chunk_arr::span_cell(spans, i)[d]
        == crate::ndarr::shift(i, r)[d] by {
        let c = chunk_shape[d] as int;
        let o = r[d].offset as int;
        vstd::arithmetic::div_mod::lemma_fundamental_div_mod(o, c);
        assert(c * (o / c) == (o / c) * c) by (nonlinear_arith);
    }
}

/// For every region with at least one axis, the shares of the chunks it
/// touches hold together exactly the cells of the region.
pub proof fn lemma_chunks_cover_region(region: ArrayRegion, chunk_shape: Seq<u64>)
    requires
        region@.len() == chunk_shape.len(),
        region@.len() > 0,
        all_positive(chunk_shape),
        ends_fit(region@),
    ensures
        crate::chunk_arr::walk_len(span_counts(region_spans(region@, chunk_shape))) == product(
            span_counts(region_spans(region@, chunk_shape)),
        ),
        Some(crate::chunk_arr::shares_total(region_spans(region@, chunk_shape)))
            == region.spec_numel(),
{
    lemma_region_spans(region@, chunk_shape);
    crate::chunk_arr::lemma_shares_total(region_spans(region@, chunk_shape));
}

/// A grid that says in which chunk a voxel lies.
pub trait ChunkGrid {
    spec fn grid_wf(&self) -> bool;

    /// Number of axes, where the grid fixes it.
    spec fn spec_maybe_ndim(&self) -> Option<nat>;

    /// Shape of every chunk of the grid.
    spec fn spec_chunk_shape(&self) -> Seq<u64>;

    /// The chunk in which the voxel lies, and the voxel's offset within it.
    fn voxel_chunk(&self, idx: &[u64]) -> (r: (GridCoord, GridCoord))
        requires
            self.grid_wf(),
            self.spec_maybe_ndim() matches Some(n) ==> idx@.len() == n,
        ensures
            r.0@ == voxel_chunk_index(idx@, self.spec_chunk_shape()),
            r.1@ == voxel_chunk_offset(idx@, self.spec_chunk_shape()),
    ;

    fn voxel_chunk_unchecked(&self, idx: &[u64]) -> (r: (GridCoord, GridCoord))
        requires
            self.grid_wf(),
        ensures
            r.0@ == voxel_chunk_index(idx@, self.spec_chunk_shape()),
            r.1@ == voxel_chunk_offset(idx@, self.spec_chunk_shape()),
    ;

    /// Shape of the chunk with the given index.
    fn chunk_shape(&self, idx: &[u64]) -> (r: GridCoord)
        requires
            self.grid_wf(),
            self.spec_maybe_ndim() matches Some(n) ==> idx@.len() == n,
        ensures
            r@ == self.spec_chunk_shape(),
    ;

    fn chunk_shape_unchecked(&self, idx: &[u64]) -> (r: GridCoord)
        requires
            self.grid_wf(),
        ensures
            r@ == self.spec_chunk_shape(),
    ;

    /// The chunks that overlap the region, each with its share of it.
    fn chunks_in_region(&self, region: &ArrayRegion) -> (it: PartialChunkIter)
        requires
            self.grid_wf(),
            self.spec_maybe_ndim() matches Some(n) ==> region@.len() == n,
            region@.len() == self.spec_chunk_shape().len(),
            ends_fit(region@),
            product(span_counts(region_spans(region@, self.spec_chunk_shape()))) <= usize::MAX,
        ensures
            it.wf(),
            it.spans() == region_spans(region@, self.spec_chunk_shape()),
            it.position() == 0,
    ;

    fn chunks_in_region_unchecked(&self, region: &ArrayRegion) -> (it: PartialChunkIter)
        requires
            self.grid_wf(),
            region@.len() == self.spec_chunk_shape().len(),
            ends_fit(region@),
            product(span_counts(region_spans(region@, self.spec_chunk_shape()))) <= usize::MAX,
        ensures
            it.wf(),
            it.spans() == region_spans(region@, self.spec_chunk_shape()),
            it.position() == 0,
    ;
}

/// A grid of chunks that all have the same shape.
#[derive(Debug)]
pub struct RegularChunkGrid {
    pub chunk_shape: GridCoord,
}

impl Clone for RegularChunkGrid {
    fn clone(&self) -> (r: RegularChunkGrid)
        ensures
            r.chunk_shape@ == self.chunk_shape@,
    {
        RegularChunkGrid { chunk_shape: self.chunk_shape.clone() }
    }
}

impl RegularChunkGrid {
    /// A regular grid needs a positive chunk length on every axis.
    pub open spec fn wf(&self) -> bool {
        all_positive(self.chunk_shape@)
    }

    pub fn new(chunk_shape: GridCoord) -> (g: RegularChunkGrid)
        ensures
            g.chunk_shape@ == chunk_shape@,
    {
        RegularChunkGrid { chunk_shape }
    }

    /// Whether every chunk length is positive.
    pub fn is_valid(&self) -> (b: bool)
        ensures
            b == self.wf(),
    {
        let s = self.chunk_shape.as_slice();
        let mut i: usize = 0;
        while i < s.len()
            invariant
                s@ == self.chunk_shape@,
                i <= s@.len(),
                forall|j: int| 0 <= j < i ==> s@[j] > 0,
            decreases s@.len() - i,
        {
            if s[i] == 0 {
                return false;
            }
            i += 1;
        }
        true
    }

    pub fn ndim(&self) -> (n: usize)
        ensures
            n == self.chunk_shape@.len(),
    {
        self.chunk_shape.len()
    }
}

impl ChunkGrid for RegularChunkGrid {
    open spec fn grid_wf(&self) -> bool {
        self.wf()
    }

    open spec fn spec_maybe_ndim(&self) -> Option<nat> {
        Some(self.chunk_shape@.len())
    }

    open spec fn spec_chunk_shape(&self) -> Seq<u64> {
        self.chunk_shape@
    }

    fn voxel_chunk(&self, idx: &[u64]) -> (r: (GridCoord, GridCoord)) {
        self.voxel_chunk_unchecked(idx)
    }

    fn voxel_chunk_unchecked(&self, idx: &[u64]) -> (r: (GridCoord, GridCoord)) {
        let cs = self.chunk_shape.as_slice();
        let mut chunk_idx: Vec<u64> = Vec::new();
        let mut offset: Vec<u64> = Vec::new();
        let mut i: usize = 0;
        while i < idx.len() && i < cs.len()
            invariant
                cs@ == self.chunk_shape@,
                all_positive(cs@),
                i <= idx@.len(),
                i <= cs@.len(),
                chunk_idx@.len() == i,
                offset@.len() == i,
                forall|j: int|
                    0 <= j < i ==> #[trigger] chunk_idx@[j] == chunk_of(idx@[j] as int, cs@[j]),
                forall|j: int|
                    0 <= j < i ==> #[trigger] offset@[j] == offset_in_chunk(idx@[j] as int, cs@[j]),
            decreases idx@.len() - i,
        {
            chunk_idx.push(idx[i] / cs[i]);
            offset.push(idx[i] % cs[i]);
            i += 1;
        }
        (GridCoord::from_vec(chunk_idx), GridCoord::from_vec(offset))
    }

    fn chunk_shape(&self, idx: &[u64]) -> (r: GridCoord) {
        self.chunk_shape.clone()
    }

    fn chunk_shape_unchecked(&self, idx: &[u64]) -> (r: GridCoord) {
        self.chunk_shape.clone()
    }

    fn chunks_in_region(&self, region: &ArrayRegion) -> (it: PartialChunkIter) {
        self.chunks_in_region_unchecked(region)
    }

    fn chunks_in_region_unchecked(&self, region: &ArrayRegion) -> (it: PartialChunkIter) {
        let off = region.offset();
        let end = region.end();
        let (min_chunk, min_offset) = self.voxel_chunk_unchecked(off.as_slice());
        let (max_chunk, max_offset) = self.voxel_chunk_unchecked(end.as_slice());
        proof {
            let spans = region_spans(region@, self.chunk_shape@);
            let given = spans_of(
                min_chunk@,
                min_offset@,
                max_chunk@,
                max_offset@,
                self.chunk_shape@,
            );
            assert forall|i: int| 0 <= i < spans.len() implies given[i] == spans[i] by {
            }
            assert(given =~= spans);
            lemma_region_spans(region@, self.chunk_shape@);
        }
        PartialChunkIter::new(
            min_chunk,
            min_offset,
            max_chunk,
            max_offset,
            self.chunk_shape.clone(),
        )
    }
}

/// The kinds of chunk grid.
#[derive(Debug)]
pub enum ChunkGridType {
    Regular(RegularChunkGrid),
}

impl Clone for ChunkGridType {
    fn clone(&self) -> (r: ChunkGridType)
        ensures
            r.spec_chunk_shape() == self.spec_chunk_shape(),
    {
        match self {
            ChunkGridType::Regular(g) => ChunkGridType::Regular(g.clone()),
        }
    }
}

impl ChunkGridType {
    /// The regular grid whose chunks have the given shape.
    pub fn from_slice(value: &[u64]) -> (g: ChunkGridType)
        ensures
            g.spec_chunk_shape() == value@,
    {
        ChunkGridType::Regular(RegularChunkGrid::new(GridCoord::from_slice(value)))
    }

    pub fn maybe_ndim(&self) -> (n: Option<usize>)
        ensures
            n is Some,
            n->Some_0 == self.spec_chunk_shape().len(),
    {
        match self {
            ChunkGridType::Regular(g) => Some(g.ndim()),
        }
    }

    pub fn is_valid(&self) -> (b: bool)
        ensures
            b == self.grid_wf(),
    {
        match self {
            ChunkGridType::Regular(g) => g.is_valid(),
        }
    }
}

impl ChunkGrid for ChunkGridType {
    open spec fn grid_wf(&self) -> bool {
        match self {
            ChunkGridType::Regular(g) => g.wf(),
        }
    }

    open spec fn spec_maybe_ndim(&self) -> Option<nat> {
        match self {
            ChunkGridType::Regular(g) => g.spec_maybe_ndim(),
        }
    }

    open spec fn spec_chunk_shape(&self) -> Seq<u64> {
        match self {
            ChunkGridType::Regular(g) => g.chunk_shape@,
        }
    }

    fn voxel_chunk(&self, idx: &[u64]) -> (r: (GridCoord, GridCoord)) {
        match self {
            ChunkGridType::Regular(g) => g.voxel_chunk(idx),
        }
    }

    fn voxel_chunk_unchecked(&self, idx: &[u64]) -> (r: (GridCoord, GridCoord)) {
        match self {
            ChunkGridType::Regular(g) => g.voxel_chunk_unchecked(idx),
        }
    }

    fn chunk_shape(&self, idx: &[u64]) -> (r: GridCoord) {
        match self {
            ChunkGridType::Regular(g) => g.chunk_shape(idx),
        }
    }

    fn chunk_shape_unchecked(&self, idx: &[u64]) -> (r: GridCoord) {
        match self {
            ChunkGridType::Regular(g) => g.chunk_shape_unchecked(idx),
        }
    }

    fn chunks_in_region(&self, region: &ArrayRegion) -> (it: PartialChunkIter) {
        match self {
            ChunkGridType::Regular(g) => g.chunks_in_region(region),
        }
    }

    fn chunks_in_region_unchecked(&self, region: &ArrayRegion) -> (it: PartialChunkIter) {
        match self {
            ChunkGridType::Regular(g) => g.chunks_in_region_unchecked(region),
        }
    }
}

} // verus!
