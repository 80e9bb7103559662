//! Codecs: the transforms that turn a chunk into stored bytes and back.

pub mod aa;
pub mod ab;
pub mod bb;
pub mod fwrite;
pub mod util;

use crate::codecs::aa::AACodecType;
use crate::codecs::ab::ABCodecType;
use crate::codecs::ab::sharding_indexed::ShardingIndexedCodec;
use crate::codecs::bb::BBCodecType;
use crate::chunk_grid::ArraySlice;
use crate::coord::product;
use crate::MaybeNdim;
use crate::NdimError;
use crate::ZarrError;
use crate::coord::GridCoord;
use crate::data_type::DataType;
use crate::data_type::NBytes;
use crate::ndarr::ArrayModel;
use crate::ndarr::NDArr;
use vstd::prelude::*;

verus! {

/// The codecs of an array, in the order in which they encode a chunk:
/// array-to-array codecs, one array-to-bytes codec, bytes-to-bytes codecs.
#[derive(Debug)]
pub struct CodecChain {
    pub aa_codecs: Vec<AACodecType>,
    pub ab_codec: ABCodecType,
    pub bb_codecs: Vec<BBCodecType>,
}

/// What a codec has to know of a chunk to decode it: its shape, the type of
/// its elements and the bytes of the fill value.
#[derive(Debug)]
pub struct ArrayRepr {
    pub shape: GridCoord,
    pub data_type: DataType,
    pub fill_value: Vec<u8>,
}

impl Clone for ArrayRepr {
    fn clone(&self) -> (r: ArrayRepr)
        ensures
            r.shape@ == self.shape@,
            r.data_type == self.data_type,
            r.fill_value@ == self.fill_value@,
    {
        ArrayRepr {
            shape: self.shape.clone(),
            data_type: self.data_type,
            fill_value: self.fill_value.clone(),
        }
    }
}

impl ArrayRepr {
    /// The fill value is one element of the data type.
    pub open spec fn wf(&self) -> bool {
        &&& self.fill_value@.len() == self.data_type.spec_nbytes()
        &&& self.fill_value@.len() > 0
    }

    /// A chunk of this shape can be held in memory.
    pub open spec fn fits(&self) -> bool {
        product(self.shape@) * self.data_type.spec_nbytes() <= usize::MAX
    }

    pub fn new(shape: &[u64], data_type: DataType, fill_value: Vec<u8>) -> (r: ArrayRepr)
        ensures
            r.shape@ == shape@,
            r.data_type == data_type,
            r.fill_value@ == fill_value@,
    {
        ArrayRepr { shape: GridCoord::from_slice(shape), data_type, fill_value }
    }

    pub fn data_type(&self) -> (d: &DataType)
        ensures
            *d == self.data_type,
    {
        &self.data_type
    }

    /// The chunk of this shape whose elements all are the fill value,
    /// where so many elements can be held.
    pub fn empty_array(&self) -> (r: Option<NDArr>)
        requires
            self.wf(),
        ensures
            crate::coord::product(self.shape@) * self.fill_value@.len() <= usize::MAX
                <==> r.is_some(),
            r matches Some(a) ==> a.wf() && a@ == ArrayModel::filled(
                self.shape@,
                self.data_type,
                self.fill_value@,
            ),
    {
        let r = NDArr::from_elem(
            self.shape.as_slice(),
            self.data_type,
            self.fill_value.as_slice(),
        );
        proof {
            if r.is_some() {
                let a = r.unwrap();
                let fill = self.fill_value@;
                let f = |k: int| fill;
                ArrayModel::lemma_from_elems(self.shape@, self.data_type, f);
                a.lemma_view();
                a.lemma_is_model(ArrayModel::filled(self.shape@, self.data_type, fill));
            }
        }
        r
    }
}

/// What a codec has to know of a chunk to decode it, as a value of
/// mathematics.
pub struct ReprModel {
    pub shape: Seq<u64>,
    pub data_type: DataType,
    pub fill: Seq<u8>,
}

impl ReprModel {
    pub open spec fn wf(self) -> bool {
        &&& self.fill.len() == self.data_type.spec_nbytes()
        &&& self.fill.len() > 0
    }

    /// The same description for another shape.
    pub open spec fn with_shape(self, shape: Seq<u64>) -> ReprModel {
        ReprModel { shape, data_type: self.data_type, fill: self.fill }
    }
}

impl View for ArrayRepr {
    type V = ReprModel;

    open spec fn view(&self) -> ReprModel {
        ReprModel { shape: self.shape@, data_type: self.data_type, fill: self.fill_value@ }
    }
}

/// Whether a chunk of the given shape can be cut into sub-chunks of shape
/// `inner`: both have the same axes, at least one, and every axis is a
/// whole number of sub-chunks.
pub open spec fn shard_shape_ok(shape: Seq<u64>, inner: Seq<u64>) -> bool {
    &&& shape.len() == inner.len()
    &&& shape.len() > 0
    &&& crate::chunk_arr::divides_evenly(shape, inner)
}

/// Number of sub-chunks along every axis.
pub open spec fn shard_counts(shape: Seq<u64>, inner: Seq<u64>) -> Seq<u64> {
    Seq::new(shape.len(), |d: int| crate::chunk_grid::chunk_of(shape[d] as int, inner[d]))
}

/// The region of the chunk that the sub-chunk with grid index `g` covers.
pub open spec fn subchunk_region(inner: Seq<u64>, g: Seq<u64>) -> Seq<ArraySlice> {
    Seq::new(inner.len(), |d: int| ArraySlice { offset: (g[d] * inner[d]) as u64, shape: inner[d] })
}

/// Whether the codecs of the chain fit chunks of `ndim` axes: every
/// array-to-array codec is sound and takes so many axes, and the same
/// holds of the chain within a sharding codec.
pub open spec fn chain_wf(chain: CodecChain, ndim: nat) -> bool
    decreases chain, 0nat,
{
    &&& crate::codecs::aa::aa_all_wf(chain.aa_codecs@, ndim)
    &&& ab_wf(chain.ab_codec, ndim)
}

pub open spec fn ab_wf(ab: ABCodecType, ndim: nat) -> bool
    decreases ab, 0nat,
{
    match ab {
        ABCodecType::Bytes(_) => true,
        ABCodecType::ShardingIndexed(s) => chain_wf(s.codecs, ndim),
    }
}

/// The chunk that the bytes stand for: first the bytes-to-bytes codecs
/// decode, the last first, then the array-to-bytes codec, then the
/// array-to-array codecs, the last first.
pub open spec fn chain_decode(chain: CodecChain, bytes: Seq<u8>, repr: ReprModel) -> Result<
    ArrayModel,
    ZarrError,
>
    decreases chain, 0nat, 0nat,
{
    match crate::codecs::bb::spec_bb_decode_all(chain.bb_codecs@, bytes) {
        Err(e) => Err(e),
        Ok(inner) => match ab_decode(
            chain.ab_codec,
            inner,
            repr.with_shape(crate::codecs::aa::spec_aa_shape_from(chain.aa_codecs@, 0, repr.shape)),
        ) {
            Err(e) => Err(e),
            Ok(m) => Ok(crate::codecs::aa::spec_aa_decode_all(chain.aa_codecs@, m)),
        },
    }
}

pub open spec fn ab_decode(ab: ABCodecType, bytes: Seq<u8>, repr: ReprModel) -> Result<
    ArrayModel,
    ZarrError,
>
    decreases ab, 0nat, 0nat,
{
    match ab {
        ABCodecType::Bytes(c) => c.spec_decode(bytes, repr.shape, repr.data_type),
        ABCodecType::ShardingIndexed(s) => shard_decode(*s, bytes, repr),
    }
}

/// The chunk that a shard stands for. The shard ends with the index and
/// its checksum; what stands before them holds the sub-chunks.
pub open spec fn shard_decode(codec: ShardingIndexedCodec, bytes: Seq<u8>, repr: ReprModel) -> Result<
    ArrayModel,
    ZarrError,
>
    decreases codec, 1nat, 0nat,
{
    let inner = codec.chunk_shape@;
    if !shard_shape_ok(repr.shape, inner) {
        Err(ZarrError::InvalidMetadata)
    } else {
        let n = product(shard_counts(repr.shape, inner));
        match crate::codecs::ab::sharding_indexed::spec_read_index(bytes, n) {
            Err(
                crate::codecs::ab::sharding_indexed::ChunkSpecConstructionError::ChecksumFailure,
            ) => Err(ZarrError::ChecksumFailure),
            Err(_) => Err(ZarrError::DecodeFailure),
            Ok(addrs) => shard_assemble(
                codec,
                bytes.take(bytes.len() - (16 * n + 4)),
                addrs,
                repr,
                n,
            ),
        }
    }
}

/// The chunk after the first `k` sub-chunks are in place: it starts as a
/// chunk of fill values; every stored sub-chunk is decoded by the codec's
/// own chain and put at its place, in C order over the grid of sub-chunks.
/// An address that points beyond the sub-chunks' bytes is an error.
pub open spec fn shard_assemble(
    codec: ShardingIndexedCodec,
    payload: Seq<u8>,
    addrs: Seq<crate::codecs::ab::sharding_indexed::ChunkAddress>,
    repr: ReprModel,
    k: nat,
) -> Result<ArrayModel, ZarrError>
    decreases codec, 0nat, k,
{
    if k == 0 {
        Ok(ArrayModel::filled(repr.shape, repr.data_type, repr.fill))
    } else {
        match shard_assemble(codec, payload, addrs, repr, (k - 1) as nat) {
            Err(e) => Err(e),
            Ok(acc) => {
                let a = addrs[k - 1];
                let inner = codec.chunk_shape@;
                if a.spec_is_empty() {
                    Ok(acc)
                } else if a.offset + a.nbytes > payload.len() {
                    Err(ZarrError::DecodeFailure)
                } else {
                    match chain_decode(
                        codec.codecs,
                        payload.subrange(a.offset as int, a.offset + a.nbytes),
                        repr.with_shape(inner),
                    ) {
                        Err(e) => Err(e),
                        Ok(sub) => Ok(
                            acc.assign(
                                subchunk_region(
                                    inner,
                                    crate::chunk_arr::unravel(
                                        (k - 1) as nat,
                                        shard_counts(repr.shape, inner),
                                    ),
                                ),
                                sub,
                            ),
                        ),
                    }
                }
            },
        }
    }
}

/// Whether a chunk of the given shape and type can be encoded, and the
/// error if it cannot: the bytes codec needs a byte order for types of
/// more than one byte, and the sharding codec needs a chunk that is a
/// whole number of sub-chunks.
pub open spec fn chain_encodable(chain: CodecChain, shape: Seq<u64>, data_type: DataType) -> Result<
    (),
    ZarrError,
>
    decreases chain, 0nat,
{
    ab_encodable(
        chain.ab_codec,
        crate::codecs::aa::spec_aa_shape_from(chain.aa_codecs@, 0, shape),
        data_type,
    )
}

pub open spec fn ab_encodable(ab: ABCodecType, shape: Seq<u64>, data_type: DataType) -> Result<
    (),
    ZarrError,
>
    decreases ab, 0nat,
{
    match ab {
        ABCodecType::Bytes(c) => match crate::data_type::spec_valid_endian(
            data_type.spec_has_endianness(),
            c.endian,
        ) {
            Err(_) => Err(ZarrError::DecodeFailure),
            Ok(_) => Ok(()),
        },
        ABCodecType::ShardingIndexed(s) => if !shard_shape_ok(shape, s.chunk_shape@) {
            Err(ZarrError::InvalidMetadata)
        } else if product(shard_counts(shape, s.chunk_shape@)) == 0 {
            Ok(())
        } else {
            chain_encodable(s.codecs, s.chunk_shape@, data_type)
        },
    }
}

/// Whether the bytes decode to the chunk `m`, whatever the fill value is.
pub open spec fn encodes_to(chain: CodecChain, bytes: Seq<u8>, m: ArrayModel) -> bool {
    forall|fill: Seq<u8>|
        fill.len() == m.es() ==> #[trigger] chain_decode(
            chain,
            bytes,
            (ReprModel { shape: m.shape, data_type: m.data_type, fill }),
        ) == Ok::<ArrayModel, ZarrError>(m)
}

pub open spec fn ab_encodes_to(ab: ABCodecType, bytes: Seq<u8>, m: ArrayModel) -> bool {
    forall|fill: Seq<u8>|
        fill.len() == m.es() ==> #[trigger] ab_decode(
            ab,
            bytes,
            (ReprModel { shape: m.shape, data_type: m.data_type, fill }),
        ) == Ok::<ArrayModel, ZarrError>(m)
}

/// Whether the address points at bytes within `payload` that decode to
/// the sub-chunk `sub`.
pub open spec fn sub_stored(
    chain: CodecChain,
    payload: Seq<u8>,
    a: crate::codecs::ab::sharding_indexed::ChunkAddress,
    sub: ArrayModel,
) -> bool {
    &&& !a.spec_is_empty()
    &&& a.offset + a.nbytes <= payload.len()
    &&& encodes_to(chain, payload.subrange(a.offset as int, a.offset + a.nbytes), sub)
}

/// Position, in C order over the grid of sub-chunks, of the sub-chunk that
/// holds the cell `idx`.
pub open spec fn subchunk_pos(idx: Seq<u64>, shape: Seq<u64>, inner: Seq<u64>) -> nat {
    crate::chunk_arr::ravel(
        crate::chunk_grid::voxel_chunk_index(idx, inner),
        shard_counts(shape, inner),
    )
}

/// The chunk `m` as far as its first `k` sub-chunks go; fill values
/// elsewhere.
pub open spec fn partial_chunk(m: ArrayModel, fill: Seq<u8>, inner: Seq<u64>, k: nat) -> ArrayModel {
    ArrayModel::from_elems(
        m.shape,
        m.data_type,
        |q: int|
            if subchunk_pos(crate::chunk_arr::unravel(q as nat, m.shape), m.shape, inner) < k {
                m.elem(q)
            } else {
                fill
            },
    )
}

pub proof fn lemma_div_range(x: int, c: int, g: int)
    requires
        c > 0,
        0 <= x,
        0 <= g,
    ensures
        (g * c <= x < g * c + c) <==> x / c == g,
{
    vstd::arithmetic::div_mod::lemma_fundamental_div_mod(x, c);
    vstd::arithmetic::div_mod::lemma_mod_bound(x, c);
    let q = x / c;
    let r = x % c;
    assert(c * q == q * c) by (nonlinear_arith);
    if g * c <= x && x < g * c + c {
        vstd::arithmetic::div_mod::lemma_fundamental_div_mod_converse(x, c, g, x - g * c);
    }
}

/// What holds of the grid of sub-chunks of a chunk that can be cut into
/// them.
pub proof fn lemma_shard_grid(shape: Seq<u64>, inner: Seq<u64>)
    requires
        shard_shape_ok(shape, inner),
    ensures
        shard_counts(shape, inner).len() == shape.len(),
        forall|d: int|
            0 <= d < shape.len() ==> inner[d] > 0 && #[trigger] shape[d] == shard_counts(
                shape,
                inner,
            )[d] * inner[d],
        product(shard_counts(shape, inner)) <= product(shape),
        product(shard_counts(shape, inner)) > 0 ==> product(inner) <= product(shape),
{
    let counts = shard_counts(shape, inner);
    assert forall|d: int| 0 <= d < shape.len() implies inner[d] > 0 && #[trigger] shape[d]
        == counts[d] * inner[d] && counts[d] <= shape[d] by {
        let a = shape[d] as int;
        let c = inner[d] as int;
        vstd::arithmetic::div_mod::lemma_fundamental_div_mod(a, c);
        vstd::arithmetic::div_mod::lemma_div_pos_is_pos(a, c);
        vstd::arithmetic::div_mod::lemma_div_nonincreasing(a, c);
        assert(c * (a / c) == (a / c) * c) by (nonlinear_arith);
    }
    crate::ndarr::lemma_product_le(counts, shape);
    if product(counts) > 0 {
        assert forall|d: int| 0 <= d < inner.len() implies inner[d] <= shape[d] by {
            if counts[d] == 0 {
                crate::coord::lemma_product_zero(counts, d);
            }
            let n = counts[d] as int;
            let c = inner[d] as int;
            assert(n * c >= c) by (nonlinear_arith)
                requires
                    n >= 1,
                    c >= 0,
            ;
        }
        crate::ndarr::lemma_product_le(inner, shape);
    }
}

/// The sub-chunk with grid index `g` lies within the chunk, has the shape
/// of a sub-chunk, and holds exactly the cells whose chunk index is `g`.
pub proof fn lemma_subchunk_region(shape: Seq<u64>, inner: Seq<u64>, g: Seq<u64>)
    requires
        shard_shape_ok(shape, inner),
        crate::chunk_arr::in_bounds(g, shard_counts(shape, inner)),
    ensures
        crate::ndarr::region_within(subchunk_region(inner, g), shape),
        crate::chunk_grid::shapes_of(subchunk_region(inner, g)) == inner,
        crate::chunk_grid::ends_fit(subchunk_region(inner, g)),
        forall|d: int| 0 <= d < inner.len() ==> g[d] * inner[d] + inner[d] <= shape[d],
        forall|idx: Seq<u64>|
            crate::chunk_arr::in_bounds(idx, shape) ==> (#[trigger] crate::ndarr::in_region(
                idx,
                subchunk_region(inner, g),
            ) <==> crate::chunk_grid::voxel_chunk_index(idx, inner) == g),
{
    lemma_shard_grid(shape, inner);
    let counts = shard_counts(shape, inner);
    let r = subchunk_region(inner, g);
    assert forall|d: int| 0 <= d < inner.len() implies g[d] * inner[d] + inner[d] <= shape[d] by {
        let gi = g[d] as int;
        let n = counts[d] as int;
        let c = inner[d] as int;
        assert(gi * c + c <= n * c) by (nonlinear_arith)
            requires
                gi + 1 <= n,
                c >= 0,
        ;
        assert(gi * c >= 0) by (nonlinear_arith)
            requires
                gi >= 0,
                c >= 0,
        ;
    }
    assert forall|d: int| 0 <= d < r.len() implies (#[trigger] r[d]).spec_end() <= shape[d] by {
    }
    assert forall|idx: Seq<u64>| crate::chunk_arr::in_bounds(idx, shape) implies (
    #[trigger] crate::ndarr::in_region(idx, r) <==> crate::chunk_grid::voxel_chunk_index(
        idx,
        inner,
    ) == g) by {
        let ci = crate::chunk_grid::voxel_chunk_index(idx, inner);
        assert forall|d: int| 0 <= d < inner.len() implies ((r[d].offset <= idx[d] && idx[d]
            < r[d].spec_end()) <==> ci[d] == g[d]) by {
            lemma_div_range(idx[d] as int, inner[d] as int, g[d] as int);
        }
        if crate::ndarr::in_region(idx, r) {
            assert forall|d: int| 0 <= d < inner.len() implies ci[d] == g[d] by {
            }
            assert(ci =~= g);
        }
        if ci == g {
            assert forall|d: int| 0 <= d < r.len() implies (#[trigger] r[d]).offset <= idx[d]
                && idx[d] < r[d].spec_end() by {
            }
        }
    }
}

/// The chunk index of a cell of the chunk lies within the grid of
/// sub-chunks.
pub proof fn lemma_chunk_index_bounds(shape: Seq<u64>, inner: Seq<u64>, idx: Seq<u64>)
    requires
        shard_shape_ok(shape, inner),
        crate::chunk_arr::in_bounds(idx, shape),
    ensures
        crate::chunk_arr::in_bounds(
            crate::chunk_grid::voxel_chunk_index(idx, inner),
            shard_counts(shape, inner),
        ),
        subchunk_pos(idx, shape, inner) < product(shard_counts(shape, inner)),
{
    lemma_shard_grid(shape, inner);
    let counts = shard_counts(shape, inner);
    let ci = crate::chunk_grid::voxel_chunk_index(idx, inner);
    assert forall|d: int| 0 <= d < counts.len() implies ci[d] < counts[d] by {
        let x = idx[d] as int;
        let c = inner[d] as int;
        let n = counts[d] as int;
        vstd::arithmetic::div_mod::lemma_fundamental_div_mod(x, c);
        vstd::arithmetic::div_mod::lemma_mod_bound(x, c);
        vstd::arithmetic::div_mod::lemma_div_pos_is_pos(x, c);
        let q = x / c;
        assert(q < n) by (nonlinear_arith)
            requires
                x < n * c,
                x == c * q + x % c,
                x % c >= 0,
                c > 0,
        ;
    }
    crate::chunk_arr::lemma_ravel_bound(ci, counts);
}

/// Arrays built from elements that agree are equal.
pub proof fn lemma_from_elems_eq(
    shape: Seq<u64>,
    data_type: DataType,
    f: spec_fn(int) -> Seq<u8>,
    g: spec_fn(int) -> Seq<u8>,
)
    requires
        data_type.spec_nbytes() > 0,
        forall|k: int|
            0 <= k < product(shape) ==> (#[trigger] f(k)).len() == data_type.spec_nbytes() && f(k)
                == g(k),
    ensures
        ArrayModel::from_elems(shape, data_type, f) == ArrayModel::from_elems(shape, data_type, g),
        ArrayModel::from_elems(shape, data_type, f).wf(),
{
    assert forall|k: int| 0 <= k < product(shape) implies (#[trigger] g(k)).len()
        == data_type.spec_nbytes() by {
        assert(f(k) == g(k));
    }
    ArrayModel::lemma_from_elems(shape, data_type, f);
    ArrayModel::lemma_from_elems(shape, data_type, g);
    let a = ArrayModel::from_elems(shape, data_type, f);
    let b = ArrayModel::from_elems(shape, data_type, g);
    assert forall|k: int| 0 <= k < product(shape) implies #[trigger] a.elem(k) == b.elem(k) by {
    }
    ArrayModel::lemma_ext(a, b);
}

/// A slice of a well-formed array is well formed and holds the cells of
/// the region.
pub proof fn lemma_slice(m: ArrayModel, r: Seq<ArraySlice>)
    requires
        m.wf(),
        crate::ndarr::region_within(r, m.shape),
    ensures
        m.slice(r).wf(),
        m.slice(r).shape == crate::chunk_grid::shapes_of(r),
        m.slice(r).data_type == m.data_type,
        forall|idx: Seq<u64>|
            crate::chunk_arr::in_bounds(idx, crate::chunk_grid::shapes_of(r)) ==> #[trigger] m.slice(
                r,
            ).at(idx) == m.at(crate::ndarr::shift(idx, r)),
{
    let os = crate::chunk_grid::shapes_of(r);
    let f = |k: int| m.at(crate::ndarr::shift(crate::chunk_arr::unravel(k as nat, os), r));
    assert forall|k: int| 0 <= k < product(os) implies (#[trigger] f(k)).len() == m.es() by {
        crate::chunk_arr::lemma_ravel_unravel(k as nat, os);
        let src = crate::ndarr::shift(crate::chunk_arr::unravel(k as nat, os), r);
        crate::ndarr::lemma_shift(crate::chunk_arr::unravel(k as nat, os), r, m.shape);
        crate::chunk_arr::lemma_ravel_bound(src, m.shape);
        crate::ndarr::ElemBuf::lemma_elem_range(
            m.es(),
            product(m.shape),
            crate::chunk_arr::ravel(src, m.shape) as int,
        );
    }
    ArrayModel::lemma_from_elems(os, m.data_type, f);
    assert forall|idx: Seq<u64>| crate::chunk_arr::in_bounds(idx, os) implies #[trigger] m.slice(
        r,
    ).at(idx) == m.at(crate::ndarr::shift(idx, r)) by {
        crate::chunk_arr::lemma_ravel_bound(idx, os);
        crate::chunk_arr::lemma_unravel_ravel(idx, os);
    }
}

/// Putting the next sub-chunk in place extends the partial chunk by it.
pub proof fn lemma_shard_step(m: ArrayModel, fill: Seq<u8>, inner: Seq<u64>, k: nat)
    requires
        m.wf(),
        fill.len() == m.es(),
        shard_shape_ok(m.shape, inner),
        k < product(shard_counts(m.shape, inner)),
    ensures
        partial_chunk(m, fill, inner, k).wf(),
        partial_chunk(m, fill, inner, k).assign(
            subchunk_region(inner, crate::chunk_arr::unravel(k, shard_counts(m.shape, inner))),
            m.slice(
                subchunk_region(inner, crate::chunk_arr::unravel(k, shard_counts(m.shape, inner))),
            ),
        ) == partial_chunk(m, fill, inner, k + 1),
{
    let shape = m.shape;
    let counts = shard_counts(shape, inner);
    let es = m.es();
    let g = crate::chunk_arr::unravel(k, counts);
    crate::chunk_arr::lemma_ravel_unravel(k, counts);
    let r = subchunk_region(inner, g);
    lemma_subchunk_region(shape, inner, g);
    lemma_slice(m, r);
    let sub = m.slice(r);
    let elems_before = |q: int|
        if subchunk_pos(crate::chunk_arr::unravel(q as nat, shape), shape, inner) < k {
            m.elem(q)
        } else {
            fill
        };
    let elems_after = |q: int|
        if subchunk_pos(crate::chunk_arr::unravel(q as nat, shape), shape, inner) < k + 1 {
            m.elem(q)
        } else {
            fill
        };
    assert forall|q: int| 0 <= q < product(shape) implies (#[trigger] elems_before(q)).len() == es by {
        crate::ndarr::ElemBuf::lemma_elem_range(es, product(shape), q);
    }
    ArrayModel::lemma_from_elems(shape, m.data_type, elems_before);
    let acc = partial_chunk(m, fill, inner, k);
    let f = |q: int|
        {
            let idx = crate::chunk_arr::unravel(q as nat, acc.shape);
            if crate::ndarr::in_region(idx, r) {
                sub.at(crate::ndarr::unshift(idx, r))
            } else {
                acc.elem(q)
            }
        };
    assert forall|q: int| 0 <= q < product(shape) implies (#[trigger] f(q)).len() == es && f(q)
        == elems_after(q) by {
        let idx = crate::chunk_arr::unravel(q as nat, shape);
        crate::chunk_arr::lemma_ravel_unravel(q as nat, shape);
        crate::ndarr::ElemBuf::lemma_elem_range(es, product(shape), q);
        lemma_chunk_index_bounds(shape, inner, idx);
        let ci = crate::chunk_grid::voxel_chunk_index(idx, inner);
        if crate::ndarr::in_region(idx, r) {
            crate::ndarr::lemma_unshift(idx, r);
            let u = crate::ndarr::unshift(idx, r);
        } else {
            if subchunk_pos(idx, shape, inner) == k {
                crate::chunk_arr::lemma_unravel_ravel(ci, counts);
                assert(false);
            }
        }
    }
    lemma_from_elems_eq(shape, m.data_type, f, elems_after);
}

/// With every sub-chunk in place the partial chunk is the chunk.
pub proof fn lemma_partial_full(m: ArrayModel, fill: Seq<u8>, inner: Seq<u64>)
    requires
        m.wf(),
        fill.len() == m.es(),
        shard_shape_ok(m.shape, inner),
    ensures
        partial_chunk(m, fill, inner, product(shard_counts(m.shape, inner))) == m,
{
    let shape = m.shape;
    let n = product(shard_counts(shape, inner));
    let p = |q: int|
        if subchunk_pos(crate::chunk_arr::unravel(q as nat, shape), shape, inner) < n {
            m.elem(q)
        } else {
            fill
        };
    assert forall|q: int| 0 <= q < product(shape) implies (#[trigger] p(q)).len() == m.es() && p(q)
        == m.elem(q) by {
        crate::chunk_arr::lemma_ravel_unravel(q as nat, shape);
        crate::ndarr::ElemBuf::lemma_elem_range(m.es(), product(shape), q);
        lemma_chunk_index_bounds(shape, inner, crate::chunk_arr::unravel(q as nat, shape));
    }
    ArrayModel::lemma_from_elems(shape, m.data_type, p);
    ArrayModel::lemma_ext(partial_chunk(m, fill, inner, n), m);
}

/// Without sub-chunks in place the partial chunk is a chunk of fill
/// values.
pub proof fn lemma_partial_empty(m: ArrayModel, fill: Seq<u8>, inner: Seq<u64>)
    requires
        m.wf(),
        fill.len() == m.es(),
    ensures
        partial_chunk(m, fill, inner, 0) == ArrayModel::filled(m.shape, m.data_type, fill),
{
    let shape = m.shape;
    let p = |q: int|
        if subchunk_pos(crate::chunk_arr::unravel(q as nat, shape), shape, inner) < 0 {
            m.elem(q)
        } else {
            fill
        };
    let c = |q: int| fill;
    assert forall|q: int| 0 <= q < product(shape) implies (#[trigger] p(q)).len() == m.es() && p(q)
        == c(q) by {}
    lemma_from_elems_eq(shape, m.data_type, p, c);
}

/// A shard whose addresses all point at bytes that decode to the
/// sub-chunks of `m` assembles to `m`.
pub proof fn lemma_shard_assemble(
    codec: ShardingIndexedCodec,
    payload: Seq<u8>,
    addrs: Seq<crate::codecs::ab::sharding_indexed::ChunkAddress>,
    m: ArrayModel,
    fill: Seq<u8>,
    k: nat,
)
    requires
        m.wf(),
        fill.len() == m.es(),
        shard_shape_ok(m.shape, codec.chunk_shape@),
        addrs.len() == product(shard_counts(m.shape, codec.chunk_shape@)),
        k <= addrs.len(),
        forall|j: int|
            0 <= j < addrs.len() ==> sub_stored(
                codec.codecs,
                payload,
                #[trigger] addrs[j],
                m.slice(
                    subchunk_region(
                        codec.chunk_shape@,
                        crate::chunk_arr::unravel(j as nat, shard_counts(m.shape, codec.chunk_shape@)),
                    ),
                ),
            ),
    ensures
        shard_assemble(
            codec,
            payload,
            addrs,
            (ReprModel { shape: m.shape, data_type: m.data_type, fill }),
            k,
        ) == Ok::<ArrayModel, ZarrError>(partial_chunk(m, fill, codec.chunk_shape@, k)),
    decreases k,
{
    let inner = codec.chunk_shape@;
    let repr = ReprModel { shape: m.shape, data_type: m.data_type, fill };
    if k == 0 {
        lemma_partial_empty(m, fill, inner);
    } else {
        let k1 = (k - 1) as nat;
        lemma_shard_assemble(codec, payload, addrs, m, fill, k1);
        lemma_shard_step(m, fill, inner, k1);
        let a = addrs[k1 as int];
        let counts = shard_counts(m.shape, inner);
        let g = crate::chunk_arr::unravel(k1, counts);
        crate::chunk_arr::lemma_ravel_unravel(k1, counts);
        lemma_subchunk_region(m.shape, inner, g);
        let sub = m.slice(subchunk_region(inner, g));
        lemma_slice(m, subchunk_region(inner, g));
        assert(chain_decode(
            codec.codecs,
            payload.subrange(a.offset as int, a.offset + a.nbytes),
            (ReprModel { shape: sub.shape, data_type: sub.data_type, fill }),
        ) == Ok::<ArrayModel, ZarrError>(sub));
        assert(repr.with_shape(inner) == (ReprModel {
            shape: sub.shape,
            data_type: sub.data_type,
            fill,
        }));
    }
}

/// Whether a chunk of the given shape can be cut into sub-chunks of shape
/// `inner`.
pub fn check_shard_shape(shape: &[u64], inner: &[u64]) -> (b: bool)
    ensures
        b == shard_shape_ok(shape@, inner@),
{
    if shape.len() != inner.len() || shape.len() == 0 {
        return false;
    }
    let mut d: usize = 0;
    while d < shape.len()
        invariant
            shape@.len() == inner@.len(),
            d <= shape@.len(),
            forall|e: int| 0 <= e < d ==> crate::chunk_arr::divides(inner@[e], #[trigger] shape@[e]),
        decreases shape@.len() - d,
    {
        if inner[d] == 0 || shape[d] % inner[d] != 0 {
            assert(!crate::chunk_arr::divides(inner@[d as int], shape@[d as int]));
            return false;
        }
        d += 1;
    }
    true
}

/// Number of sub-chunks along every axis.
pub fn shard_counts_of(shape: &[u64], inner: &[u64]) -> (v: Vec<u64>)
    requires
        shard_shape_ok(shape@, inner@),
    ensures
        v@ == shard_counts(shape@, inner@),
{
    let mut v: Vec<u64> = Vec::new();
    let mut d: usize = 0;
    while d < shape.len()
        invariant
            shard_shape_ok(shape@, inner@),
            d <= shape@.len(),
            v@.len() == d,
            forall|e: int| 0 <= e < d ==> v@[e] == crate::chunk_grid::chunk_of(shape@[e] as int, inner@[e]),
        decreases shape@.len() - d,
    {
        v.push(shape[d] / inner[d]);
        d += 1;
    }
    v
}

/// The region of the chunk that the sub-chunk with grid index `g` covers.
pub fn subchunk_region_of(inner: &[u64], g: &[u64]) -> (r: crate::chunk_grid::ArrayRegion)
    requires
        g@.len() == inner@.len(),
        forall|d: int| 0 <= d < inner@.len() ==> g@[d] * inner@[d] + inner@[d] <= u64::MAX,
    ensures
        r@ == subchunk_region(inner@, g@),
{
    let mut slices: Vec<ArraySlice> = Vec::new();
    let mut d: usize = 0;
    while d < inner.len()
        invariant
            g@.len() == inner@.len(),
            forall|e: int| 0 <= e < inner@.len() ==> g@[e] * inner@[e] + inner@[e] <= u64::MAX,
            d <= inner@.len(),
            slices@.len() == d,
            forall|e: int|
                0 <= e < d ==> slices@[e] == (ArraySlice {
                    offset: (g@[e] * inner@[e]) as u64,
                    shape: inner@[e],
                }),
        decreases inner@.len() - d,
    {
        slices.push(ArraySlice::new(g[d] * inner[d], inner[d]));
        d += 1;
    }
    crate::chunk_grid::ArrayRegion::from_vec(slices)
}

/// Encodes a chunk: the array-to-array codecs in order, then the
/// array-to-bytes codec, then the bytes-to-bytes codecs in order. What
/// comes out decodes to the chunk.
pub fn encode_chain(chain: &CodecChain, decoded: NDArr) -> (r: Result<Vec<u8>, ZarrError>)
    requires
        chain_wf(*chain, decoded.shape@.len()),
        decoded.wf(),
    ensures
        r matches Ok(v) ==> encodes_to(*chain, v@, decoded@),
        r matches Err(e) ==> chain_encodable(*chain, decoded.shape@, decoded.data_type) == Err::<
            (),
            ZarrError,
        >(e),
        chain_encodable(*chain, decoded.shape@, decoded.data_type) is Ok ==> r is Ok,
    decreases chain,
{
    let ghost m = decoded@;
    proof {
        decoded.lemma_view();
        crate::codecs::aa::lemma_aa_encode_wf(chain.aa_codecs@, 0, m);
        crate::codecs::aa::lemma_aa_roundtrip(chain.aa_codecs@, m);
    }
    let enc_arr = crate::codecs::aa::aa_encode_all(chain.aa_codecs.as_slice(), decoded);
    let ab_bytes = match encode_ab(&chain.ab_codec, &enc_arr) {
        Ok(v) => v,
        Err(e) => {
            return Err(e);
        },
    };
    let out = crate::codecs::bb::bb_encode_all(chain.bb_codecs.as_slice(), ab_bytes);
    proof {
        let em = enc_arr@;
        assert forall|fill: Seq<u8>| fill.len() == m.es() implies #[trigger] chain_decode(
            *chain,
            out@,
            (ReprModel { shape: m.shape, data_type: m.data_type, fill }),
        ) == Ok::<ArrayModel, ZarrError>(m) by {
            let repr = ReprModel { shape: m.shape, data_type: m.data_type, fill };
            let enc_repr = repr.with_shape(
                crate::codecs::aa::spec_aa_shape_from(chain.aa_codecs@, 0, repr.shape),
            );
            assert(ab_decode(chain.ab_codec, ab_bytes@, enc_repr) == Ok::<ArrayModel, ZarrError>(
                em,
            ));
        }
    }
    Ok(out)
}

/// Encodes a chunk with the array-to-bytes codec.
pub fn encode_ab(ab: &ABCodecType, decoded: &NDArr) -> (r: Result<Vec<u8>, ZarrError>)
    requires
        ab_wf(*ab, decoded.shape@.len()),
        decoded.wf(),
    ensures
        r matches Ok(v) ==> ab_encodes_to(*ab, v@, decoded@),
        r matches Err(e) ==> ab_encodable(*ab, decoded.shape@, decoded.data_type) == Err::<
            (),
            ZarrError,
        >(e),
        ab_encodable(*ab, decoded.shape@, decoded.data_type) is Ok ==> r is Ok,
    decreases ab,
{
    match ab {
        ABCodecType::Bytes(c) => {
            let r = c.encode(decoded);
            proof {
                decoded.lemma_view();
                if r is Ok {
                    c.lemma_roundtrip(decoded@);
                }
            }
            r
        },
        ABCodecType::ShardingIndexed(s) => encode_shard(&**s, decoded),
    }
}

/// Encodes a chunk as a shard: the sub-chunks in C order, each encoded by
/// the codec's own chain, then the address of every sub-chunk, then the
/// checksum of the addresses.
pub fn encode_shard(codec: &ShardingIndexedCodec, decoded: &NDArr) -> (r: Result<
    Vec<u8>,
    ZarrError,
>)
    requires
        chain_wf(codec.codecs, decoded.shape@.len()),
        decoded.wf(),
    ensures
        r matches Ok(v) ==> ab_encodes_to(
            ABCodecType::ShardingIndexed(Box::new(*codec)),
            v@,
            decoded@,
        ) && is_shard(v@, product(shard_counts(decoded.shape@, codec.chunk_shape@))),
        r matches Ok(v) ==> shard_layout(*codec, v@, decoded@),
        r matches Err(e) ==> ab_encodable(
            ABCodecType::ShardingIndexed(Box::new(*codec)),
            decoded.shape@,
            decoded.data_type,
        ) == Err::<(), ZarrError>(e),
        ab_encodable(
            ABCodecType::ShardingIndexed(Box::new(*codec)),
            decoded.shape@,
            decoded.data_type,
        ) is Ok ==> r is Ok,
    decreases codec,
{
    let inner = codec.chunk_shape.as_slice();
    let shape = decoded.shape.as_slice();
    if !check_shard_shape(shape, inner) {
        return Err(ZarrError::InvalidMetadata);
    }
    let ghost m = decoded@;
    let counts = shard_counts_of(shape, inner);
    let total: usize = decoded.numel();
    proof {
        decoded.lemma_view();
        lemma_shard_grid(shape@, inner@);
    }
    let n: usize = match crate::coord::checked_numel(counts.as_slice()) {
        Some(n) => n,
        None => 0,
    };
    let mut payload: Vec<u8> = Vec::new();
    let mut addrs: Vec<crate::codecs::ab::sharding_indexed::ChunkAddress> = Vec::new();
    let mut k: usize = 0;
    while k < n
        invariant
            inner@ == codec.chunk_shape@,
            shape@ == decoded.shape@,
            m == decoded@,
            m.wf(),
            decoded.wf(),
            chain_wf(codec.codecs, decoded.shape@.len()),
            shard_shape_ok(shape@, inner@),
            counts@ == shard_counts(shape@, inner@),
            n == product(counts@),
            k <= n,
            addrs@.len() == k,
            forall|j: int|
                0 <= j < k ==> sub_stored(
                    codec.codecs,
                    payload@,
                    #[trigger] addrs@[j],
                    m.slice(subchunk_region(inner@, crate::chunk_arr::unravel(j as nat, counts@))),
                ),
        decreases n - k,
    {
        let g = crate::chunk_arr::unravel_index(k, counts.as_slice());
        proof {
            lemma_subchunk_region(shape@, inner@, g@);
        }
        let region = subchunk_region_of(inner, g.as_slice());
        let sub = decoded.slice(&region);
        let ghost sub_m = sub@;
        let enc = match encode_chain(&codec.codecs, sub) {
            Ok(v) => v,
            Err(e) => {
                return Err(e);
            },
        };
        let ghost before = payload@;
        let ghost old_addrs = addrs@;
        let a = crate::codecs::ab::sharding_indexed::ChunkAddress {
            offset: payload.len() as u64,
            nbytes: enc.len() as u64,
        };
        crate::codecs::fwrite::append_bytes(&mut payload, enc.as_slice());
        addrs.push(a);
        let plen: usize = payload.len();
        proof {
            assert(payload@.subrange(a.offset as int, a.offset + a.nbytes) =~= enc@);
            assert forall|j: int| 0 <= j < k + 1 implies sub_stored(
                codec.codecs,
                payload@,
                #[trigger] addrs@[j],
                m.slice(subchunk_region(inner@, crate::chunk_arr::unravel(j as nat, counts@))),
            ) by {
                if j < k {
                    let aj = old_addrs[j];
                    assert(sub_stored(
                        codec.codecs,
                        before,
                        aj,
                        m.slice(
                            subchunk_region(inner@, crate::chunk_arr::unravel(j as nat, counts@)),
                        ),
                    ));
                    assert(payload@.subrange(aj.offset as int, aj.offset + aj.nbytes)
                        =~= before.subrange(aj.offset as int, aj.offset + aj.nbytes));
                } else {
                }
            }
        }
        k += 1;
    }
    let footer = crate::codecs::ab::sharding_indexed::footer_bytes(addrs.as_slice());
    let ghost pay = payload@;
    let mut out = payload;
    crate::codecs::fwrite::append_bytes(&mut out, footer.as_slice());
    proof {
        crate::codecs::ab::sharding_indexed::lemma_footer_roundtrip(pay, addrs@);
        let ab = ABCodecType::ShardingIndexed(Box::new(*codec));
        assert forall|fill: Seq<u8>| fill.len() == m.es() implies #[trigger] ab_decode(
            ab,
            out@,
            (ReprModel { shape: m.shape, data_type: m.data_type, fill }),
        ) == Ok::<ArrayModel, ZarrError>(m) by {
            lemma_shard_assemble(*codec, pay, addrs@, m, fill, n as nat);
            lemma_partial_full(m, fill, inner@);
        }
        assert(out@.take(out@.len() - (16 * n + 4)) == pay);
        assert(crate::codecs::ab::sharding_indexed::spec_read_index(out@, n as nat) == Ok::<
            Seq<crate::codecs::ab::sharding_indexed::ChunkAddress>,
            crate::codecs::ab::sharding_indexed::ChunkSpecConstructionError,
        >(addrs@));
        assert(shard_layout(*codec, out@, m));
    }
    Ok(out)
}

/// Whether the bytes are a shard of the chunk `m`, address by address:
/// they end with the index of as many addresses as the chunk has
/// sub-chunks, and the address of every sub-chunk, in C order over the grid
/// of sub-chunks, either stands for a sub-chunk that is not stored, or
/// points at bytes in front of the index that the chain decodes to that
/// sub-chunk.
pub open spec fn shard_layout(codec: ShardingIndexedCodec, bytes: Seq<u8>, m: ArrayModel) -> bool {
    let counts = shard_counts(m.shape, codec.chunk_shape@);
    let n = product(counts);
    &&& bytes.len() >= 16 * n + 4
    &&& crate::codecs::ab::sharding_indexed::spec_read_index(bytes, n) is Ok
    &&& crate::codecs::ab::sharding_indexed::spec_read_index(bytes, n)->Ok_0.len() == n
    &&& forall|j: int|
        0 <= j < n ==> {
            let a = #[trigger] crate::codecs::ab::sharding_indexed::spec_read_index(
                bytes,
                n,
            )->Ok_0[j];
            a.spec_is_empty() || sub_stored(
                codec.codecs,
                bytes.take(bytes.len() - (16 * n + 4)),
                a,
                m.slice(
                    subchunk_region(codec.chunk_shape@, crate::chunk_arr::unravel(j as nat, counts)),
                ),
            )
        }
}

/// Whether the bytes end with the index of a shard of `n` sub-chunks: `n`
/// addresses followed by their checksum.
pub open spec fn is_shard(bytes: Seq<u8>, n: nat) -> bool {
    &&& bytes.len() >= 16 * n + 4
    &&& spec_validate_crc32c_len(bytes.skip(bytes.len() - (16 * n + 4))) == Some(16 * n)
}

/// Number of bytes in front of a checksum that matches them, if it does.
pub open spec fn spec_validate_crc32c_len(bytes: Seq<u8>) -> Option<nat> {
    match crate::codecs::bb::crc32c_codec::spec_validate_crc32c(bytes) {
        Ok(p) => Some(p.len()),
        Err(_) => None,
    }
}

/// Decodes a chunk: the bytes-to-bytes codecs, the last first, then the
/// array-to-bytes codec, then the array-to-array codecs, the last first.
pub fn decode_chain(chain: &CodecChain, bytes: Vec<u8>, decoded_repr: &ArrayRepr) -> (r: Result<
    NDArr,
    ZarrError,
>)
    requires
        chain_wf(*chain, decoded_repr.shape@.len()),
        decoded_repr.wf(),
        decoded_repr.fits(),
    ensures
        r matches Ok(a) ==> a.wf() && a.shape@ == decoded_repr.shape@ && a.data_type
            == decoded_repr.data_type && chain_decode(*chain, bytes@, decoded_repr@) == Ok::<
            ArrayModel,
            ZarrError,
        >(a@),
        r matches Err(e) ==> chain_decode(*chain, bytes@, decoded_repr@) == Err::<
            ArrayModel,
            ZarrError,
        >(e),
    decreases chain,
{
    let ab_bytes = match crate::codecs::bb::bb_decode_all(chain.bb_codecs.as_slice(), bytes) {
        Ok(v) => v,
        Err(e) => {
            return Err(e);
        },
    };
    proof {
        crate::codecs::aa::lemma_aa_shape(chain.aa_codecs@, 0, decoded_repr.shape@);
    }
    let enc_repr = crate::codecs::aa::aa_compute_encoded_representation(
        chain.aa_codecs.as_slice(),
        decoded_repr.clone(),
    );
    assert(enc_repr@ == decoded_repr@.with_shape(
        crate::codecs::aa::spec_aa_shape_from(chain.aa_codecs@, 0, decoded_repr.shape@),
    ));
    let arr = match decode_ab(&chain.ab_codec, ab_bytes, &enc_repr) {
        Ok(a) => a,
        Err(e) => {
            return Err(e);
        },
    };
    proof {
        arr.lemma_view();
        crate::codecs::aa::lemma_aa_decode_shape(
            chain.aa_codecs@,
            0,
            decoded_repr.shape@,
            arr@,
        );
    }
    let out = crate::codecs::aa::aa_decode_all(chain.aa_codecs.as_slice(), arr);
    Ok(out)
}

/// Decodes a chunk with the array-to-bytes codec.
pub fn decode_ab(ab: &ABCodecType, bytes: Vec<u8>, decoded_repr: &ArrayRepr) -> (r: Result<
    NDArr,
    ZarrError,
>)
    requires
        ab_wf(*ab, decoded_repr.shape@.len()),
        decoded_repr.wf(),
        decoded_repr.fits(),
    ensures
        r matches Ok(a) ==> a.wf() && a.shape@ == decoded_repr.shape@ && a.data_type
            == decoded_repr.data_type && ab_decode(*ab, bytes@, decoded_repr@) == Ok::<
            ArrayModel,
            ZarrError,
        >(a@),
        r matches Err(e) ==> ab_decode(*ab, bytes@, decoded_repr@) == Err::<ArrayModel, ZarrError>(
            e,
        ),
    decreases ab,
{
    match ab {
        ABCodecType::Bytes(c) => c.decode(bytes, decoded_repr),
        ABCodecType::ShardingIndexed(s) => decode_shard(&**s, bytes.as_slice(), decoded_repr),
    }
}

/// Decodes a shard: reads the index from its end, checks the checksum of
/// the index, and puts every stored sub-chunk, decoded by the codec's own
/// chain, at its place in a chunk of fill values. An address that points
/// beyond the bytes of the sub-chunks is an error.
pub fn decode_shard(codec: &ShardingIndexedCodec, bytes: &[u8], decoded_repr: &ArrayRepr) -> (r:
    Result<NDArr, ZarrError>)
    requires
        chain_wf(codec.codecs, decoded_repr.shape@.len()),
        decoded_repr.wf(),
        decoded_repr.fits(),
    ensures
        r matches Ok(a) ==> a.wf() && a.shape@ == decoded_repr.shape@ && a.data_type
            == decoded_repr.data_type && shard_decode(*codec, bytes@, decoded_repr@) == Ok::<
            ArrayModel,
            ZarrError,
        >(a@),
        r matches Err(e) ==> shard_decode(*codec, bytes@, decoded_repr@) == Err::<
            ArrayModel,
            ZarrError,
        >(e),
    decreases codec,
{
    let inner = codec.chunk_shape.as_slice();
    let shape = decoded_repr.shape.as_slice();
    if !check_shard_shape(shape, inner) {
        return Err(ZarrError::InvalidMetadata);
    }
    let counts = shard_counts_of(shape, inner);
    let ghost es = decoded_repr.data_type.spec_nbytes();
    proof {
        lemma_shard_grid(shape@, inner@);
        let p = product(shape@);
        assert(p <= p * es) by (nonlinear_arith)
            requires
                es >= 1,
        ;
    }
    let n: usize = match crate::coord::checked_numel(counts.as_slice()) {
        Some(n) => n,
        None => 0,
    };
    let blen: usize = bytes.len();
    let footer: usize = match n.checked_mul(16) {
        None => {
            return Err(ZarrError::DecodeFailure);
        },
        Some(x) => match x.checked_add(4) {
            None => {
                return Err(ZarrError::DecodeFailure);
            },
            Some(f) => f,
        },
    };
    if bytes.len() < footer {
        return Err(ZarrError::DecodeFailure);
    }
    let payload_len: usize = bytes.len() - footer;
    let tail = crate::codecs::fwrite::copy_range(bytes, payload_len, bytes.len());
    assert(bytes@.subrange(payload_len as int, bytes@.len() as int) =~= bytes@.skip(
        bytes@.len() - footer,
    ));
    let index = match crate::codecs::bb::crc32c_codec::validate_crc32c(tail.as_slice()) {
        Ok(v) => v,
        Err(_) => {
            return Err(ZarrError::ChecksumFailure);
        },
    };
    let addrs = crate::codecs::ab::sharding_indexed::parse_addresses(index.as_slice(), n);
    let ghost payload = bytes@.take(payload_len as int);
    let ghost repr = decoded_repr@;
    let mut out = match decoded_repr.empty_array() {
        Some(a) => a,
        None => {
            assert(false);
            return Err(ZarrError::DecodeFailure);
        },
    };
    let inner_repr = ArrayRepr::new(inner, decoded_repr.data_type, decoded_repr.fill_value.clone());
    let mut k: usize = 0;
    while k < n
        invariant
            inner@ == codec.chunk_shape@,
            shape@ == decoded_repr.shape@,
            repr == decoded_repr@,
            decoded_repr.wf(),
            decoded_repr.fits(),
            inner_repr@ == repr.with_shape(inner@),
            chain_wf(codec.codecs, decoded_repr.shape@.len()),
            shard_shape_ok(shape@, inner@),
            counts@ == shard_counts(shape@, inner@),
            n == product(counts@),
            k <= n,
            addrs@.len() == n,
            payload_len <= bytes@.len(),
            payload == bytes@.take(payload_len as int),
            out.wf(),
            out.shape@ == shape@,
            out.data_type == decoded_repr.data_type,
            es == decoded_repr.data_type.spec_nbytes(),
            shard_decode(*codec, bytes@, repr) == shard_assemble(
                *codec,
                payload,
                addrs@,
                repr,
                n as nat,
            ),
            shard_assemble(*codec, payload, addrs@, repr, k as nat) == Ok::<ArrayModel, ZarrError>(
                out@,
            ),
        decreases n - k,
    {
        let a = addrs[k];
        proof {
            lemma_assemble_err(*codec, payload, addrs@, repr, (k + 1) as nat, n as nat);
        }
        if !a.is_empty() {
            let len64: u64 = payload_len as u64;
            if a.offset > len64 || a.nbytes > len64 - a.offset {
                return Err(ZarrError::DecodeFailure);
            }
            let start: usize = a.offset as usize;
            let end: usize = (a.offset + a.nbytes) as usize;
            let sub_bytes = crate::codecs::fwrite::copy_range(bytes, start, end);
            assert(bytes@.subrange(start as int, end as int) =~= payload.subrange(
                a.offset as int,
                a.offset + a.nbytes,
            ));
            proof {
                lemma_shard_grid(shape@, inner@);
                let p = product(inner@);
                let q = product(shape@);
                assert(p * es <= q * es) by (nonlinear_arith)
                    requires
                        p <= q,
                        es >= 0,
                ;
            }
            let sub = match decode_chain(&codec.codecs, sub_bytes, &inner_repr) {
                Ok(s) => s,
                Err(e) => {
                    return Err(e);
                },
            };
            let g = crate::chunk_arr::unravel_index(k, counts.as_slice());
            proof {
                lemma_subchunk_region(shape@, inner@, g@);
            }
            let region = subchunk_region_of(inner, g.as_slice());
            out.assign(&region, &sub);
        }
        k += 1;
    }
    Ok(out)
}

/// An error in putting the first `k` sub-chunks in place is the error of
/// putting all of them in place.
pub proof fn lemma_assemble_err(
    codec: ShardingIndexedCodec,
    payload: Seq<u8>,
    addrs: Seq<crate::codecs::ab::sharding_indexed::ChunkAddress>,
    repr: ReprModel,
    k: nat,
    n: nat,
)
    requires
        k <= n,
    ensures
        shard_assemble(codec, payload, addrs, repr, k) is Err ==> shard_assemble(
            codec,
            payload,
            addrs,
            repr,
            n,
        ) == shard_assemble(codec, payload, addrs, repr, k),
    decreases n - k,
{
    if k < n {
        lemma_assemble_err(codec, payload, addrs, repr, k + 1, n);
    }
}

/// The three families of codecs.
#[derive(Clone, Copy, Debug, PartialEq, Eq, Structural)]
pub enum CodecKind {
    AA,
    AB,
    BB,
}

/// A codec of any family.
#[derive(Debug)]
pub enum CodecType {
    AA(AACodecType),
    AB(ABCodecType),
    BB(BBCodecType),
}

/// Why a list of codecs is no codec chain.
#[derive(Clone, Copy, Debug, PartialEq, Eq, Structural)]
pub enum CodecChainConstructionError {
    /// More than one array-to-bytes codec.
    MultipleAB,
    /// A codec of the first family stands behind one of the second.
    IllegalOrder(CodecKind, CodecKind),
    /// No array-to-bytes codec.
    NoAB,
}

impl CodecType {
    pub open spec fn kind(self) -> CodecKind {
        match self {
            CodecType::AA(_) => CodecKind::AA,
            CodecType::AB(_) => CodecKind::AB,
            CodecType::BB(_) => CodecKind::BB,
        }
    }
}

impl crate::MaybeNdim for CodecType {
    open spec fn spec_maybe_ndim(&self) -> Option<nat> {
        match self {
            CodecType::AA(c) => c.spec_maybe_ndim(),
            CodecType::AB(c) => c.spec_maybe_ndim(),
            CodecType::BB(c) => c.spec_maybe_ndim(),
        }
    }

    fn maybe_ndim(&self) -> (n: Option<usize>) {
        match self {
            CodecType::AA(c) => crate::MaybeNdim::maybe_ndim(c),
            CodecType::AB(c) => crate::MaybeNdim::maybe_ndim(c),
            CodecType::BB(c) => crate::MaybeNdim::maybe_ndim(c),
        }
    }
}

/// Checks the codecs from position `i` on, in order: array-to-array codecs
/// must stand before the array-to-bytes codec, of which there must be
/// exactly one, and bytes-to-bytes codecs behind it.
pub open spec fn spec_chain_check(
    codecs: Seq<CodecType>,
    i: int,
    seen_ab: bool,
    seen_bb: bool,
) -> Result<(), CodecChainConstructionError>
    decreases codecs.len() - i,
{
    if i < 0 || i >= codecs.len() {
        if seen_ab {
            Ok(())
        } else {
            Err(CodecChainConstructionError::NoAB)
        }
    } else {
        match codecs[i].kind() {
            CodecKind::AA => if seen_ab {
                Err(CodecChainConstructionError::IllegalOrder(CodecKind::AA, CodecKind::AB))
            } else if seen_bb {
                Err(CodecChainConstructionError::IllegalOrder(CodecKind::AA, CodecKind::BB))
            } else {
                spec_chain_check(codecs, i + 1, seen_ab, seen_bb)
            },
            CodecKind::AB => if seen_ab {
                Err(CodecChainConstructionError::MultipleAB)
            } else if seen_bb {
                Err(CodecChainConstructionError::IllegalOrder(CodecKind::AB, CodecKind::BB))
            } else {
                spec_chain_check(codecs, i + 1, true, seen_bb)
            },
            CodecKind::BB => spec_chain_check(codecs, i + 1, seen_ab, true),
        }
    }
}

/// Whether the codec at position `k` is an array-to-bytes codec with
/// nothing but array-to-array codecs before it and nothing but
/// bytes-to-bytes codecs behind it.
pub open spec fn ordered_around(codecs: Seq<CodecType>, k: int) -> bool {
    &&& 0 <= k < codecs.len()
    &&& codecs[k].kind() == CodecKind::AB
    &&& forall|j: int| 0 <= j < k ==> (#[trigger] codecs[j]).kind() == CodecKind::AA
    &&& forall|j: int| k < j < codecs.len() ==> (#[trigger] codecs[j]).kind() == CodecKind::BB
}

/// Whether the codecs stand in the order of a chain: array-to-array
/// codecs, then exactly one array-to-bytes codec, then bytes-to-bytes
/// codecs.
pub open spec fn well_ordered(codecs: Seq<CodecType>) -> bool {
    exists|k: int| #[trigger] ordered_around(codecs, k)
}

/// Behind the array-to-bytes codec the check passes exactly where only
/// bytes-to-bytes codecs follow.
proof fn lemma_check_behind(codecs: Seq<CodecType>, i: int, seen_bb: bool)
    requires
        0 <= i <= codecs.len(),
    ensures
        spec_chain_check(codecs, i, true, seen_bb) is Ok <==> forall|j: int|
            i <= j < codecs.len() ==> (#[trigger] codecs[j]).kind() == CodecKind::BB,
    decreases codecs.len() - i,
{
    if i < codecs.len() {
        lemma_check_behind(codecs, i + 1, true);
        if codecs[i].kind() == CodecKind::BB {
            assert forall|j: int| i <= j < codecs.len() && (forall|j2: int|
                i + 1 <= j2 < codecs.len() ==> (#[trigger] codecs[j2]).kind() == CodecKind::BB)
                implies (#[trigger] codecs[j]).kind() == CodecKind::BB by {}
        }
    }
}

/// Once a bytes-to-bytes codec stands before any array-to-bytes codec,
/// the check fails.
proof fn lemma_check_lost(codecs: Seq<CodecType>, i: int)
    requires
        0 <= i <= codecs.len(),
    ensures
        spec_chain_check(codecs, i, false, true) is Err,
    decreases codecs.len() - i,
{
    if i < codecs.len() {
        lemma_check_lost(codecs, i + 1);
    }
}

/// Before the array-to-bytes codec the check passes exactly where the
/// codecs from here on are in order.
proof fn lemma_check_before(codecs: Seq<CodecType>, i: int)
    requires
        0 <= i <= codecs.len(),
        forall|j: int| 0 <= j < i ==> (#[trigger] codecs[j]).kind() == CodecKind::AA,
    ensures
        spec_chain_check(codecs, i, false, false) is Ok <==> well_ordered(codecs),
    decreases codecs.len() - i,
{
    if i >= codecs.len() {
        if well_ordered(codecs) {
            let k = choose|k: int| #[trigger] ordered_around(codecs, k);
            assert(codecs[k].kind() == CodecKind::AA);
        }
    } else {
        match codecs[i].kind() {
            CodecKind::AA => {
                lemma_check_before(codecs, i + 1);
            },
            CodecKind::AB => {
                lemma_check_behind(codecs, i + 1, false);
                if spec_chain_check(codecs, i, false, false) is Ok {
                    assert(ordered_around(codecs, i));
                }
                if well_ordered(codecs) {
                    let k = choose|k: int| #[trigger] ordered_around(codecs, k);
                    if k < i {
                        assert(codecs[k].kind() == CodecKind::AA);
                    }
                    if k > i {
                        assert(codecs[i].kind() == CodecKind::AA);
                    }
                }
            },
            CodecKind::BB => {
                lemma_check_lost(codecs, i + 1);
                if well_ordered(codecs) {
                    let k = choose|k: int| #[trigger] ordered_around(codecs, k);
                    if k < i {
                        assert(codecs[k].kind() == CodecKind::AA);
                    }
                    if k > i {
                        assert(codecs[i].kind() == CodecKind::AA);
                    }
                }
            },
        }
    }
}

/// The check of a list of codecs passes exactly where the list is some
/// array-to-array codecs, one array-to-bytes codec and some bytes-to-bytes
/// codecs, in this order.
pub proof fn lemma_chain_check(codecs: Seq<CodecType>)
    ensures
        spec_chain_check(codecs, 0, false, false) is Ok <==> well_ordered(codecs),
{
    lemma_check_before(codecs, 0);
}

/// The codecs of a chain as one list, in the order in which they encode.
pub open spec fn chain_list(chain: CodecChain) -> Seq<CodecType> {
    Seq::new(
        chain.aa_codecs@.len() + 1 + chain.bb_codecs@.len(),
        |i: int|
            if i < chain.aa_codecs@.len() {
                CodecType::AA(chain.aa_codecs@[i])
            } else if i == chain.aa_codecs@.len() {
                CodecType::AB(chain.ab_codec)
            } else {
                CodecType::BB(chain.bb_codecs@[i - chain.aa_codecs@.len() - 1])
            },
    )
}

impl Default for CodecChain {
    /// The chain that only writes the elements in little-endian order.
    fn default() -> (c: CodecChain)
        ensures
            c.aa_codecs@.len() == 0,
            c.bb_codecs@.len() == 0,
            c.ab_codec == ABCodecType::Bytes(
                (crate::codecs::ab::bytes_codec::BytesCodec {
                    endian: Some(crate::codecs::ab::bytes_codec::Endian::Little),
                }),
            ),
    {
        CodecChain {
            aa_codecs: Vec::new(),
            ab_codec: ABCodecType::Bytes(
                crate::codecs::ab::bytes_codec::BytesCodec {
                    endian: Some(crate::codecs::ab::bytes_codec::Endian::Little),
                },
            ),
            bb_codecs: Vec::new(),
        }
    }
}

impl CodecChain {
    pub fn new(aa_codecs: Vec<AACodecType>, ab_codec: ABCodecType, bb_codecs: Vec<BBCodecType>) -> (c:
        CodecChain)
        ensures
            c.aa_codecs == aa_codecs,
            c.ab_codec == ab_codec,
            c.bb_codecs == bb_codecs,
    {
        CodecChain { aa_codecs, ab_codec, bb_codecs }
    }

    /// The chain made of the given codecs, where they stand in an order
    /// that the format allows.
    pub fn from_codecs(codecs: Vec<CodecType>) -> (r: Result<
        CodecChain,
        CodecChainConstructionError,
    >)
        ensures
            r is Ok <==> well_ordered(codecs@),
            r matches Ok(c) ==> chain_list(c) == codecs@,
            r matches Err(e) ==> spec_chain_check(codecs@, 0, false, false) == Err::<
                (),
                CodecChainConstructionError,
            >(e),
    {
        proof {
            lemma_chain_check(codecs@);
        }
        CodecChain::sort_codecs(codecs)
    }

    fn sort_codecs(codecs: Vec<CodecType>) -> (r: Result<CodecChain, CodecChainConstructionError>)
        ensures
            r matches Ok(c) ==> spec_chain_check(codecs@, 0, false, false) is Ok && chain_list(c)
                == codecs@,
            r matches Err(e) ==> spec_chain_check(codecs@, 0, false, false) == Err::<
                (),
                CodecChainConstructionError,
            >(e),
    {
        let n = codecs.len();
        let mut seen_ab = false;
        let mut seen_bb = false;
        let mut n_aa: usize = 0;
        let mut i: usize = 0;
        while i < n
            invariant
                n == codecs@.len(),
                i <= n,
                spec_chain_check(codecs@, 0, false, false) == spec_chain_check(
                    codecs@,
                    i as int,
                    seen_ab,
                    seen_bb,
                ),
                !seen_ab && !seen_bb ==> n_aa == i && forall|j: int|
                    0 <= j < i ==> (#[trigger] codecs@[j]).kind() == CodecKind::AA,
                seen_ab ==> n_aa < i && codecs@[n_aa as int].kind() == CodecKind::AB && (forall|
                    j: int,
                |
                    0 <= j < n_aa ==> (#[trigger] codecs@[j]).kind() == CodecKind::AA) && (forall|
                    j: int,
                |
                    n_aa < j < i ==> (#[trigger] codecs@[j]).kind() == CodecKind::BB),
            decreases n - i,
        {
            match &codecs[i] {
                CodecType::AA(_) => {
                    if seen_ab {
                        return Err(
                            CodecChainConstructionError::IllegalOrder(CodecKind::AA, CodecKind::AB),
                        );
                    }
                    if seen_bb {
                        return Err(
                            CodecChainConstructionError::IllegalOrder(CodecKind::AA, CodecKind::BB),
                        );
                    }
                    n_aa += 1;
                },
                CodecType::AB(_) => {
                    if seen_ab {
                        return Err(CodecChainConstructionError::MultipleAB);
                    }
                    if seen_bb {
                        return Err(
                            CodecChainConstructionError::IllegalOrder(CodecKind::AB, CodecKind::BB),
                        );
                    }
                    seen_ab = true;
                },
                CodecType::BB(_) => {
                    seen_bb = true;
                },
            }
            i += 1;
        }
        if !seen_ab {
            return Err(CodecChainConstructionError::NoAB);
        }
        // the list is AA codecs, one AB codec, BB codecs: take it apart from its end
        let ghost orig = codecs@;
        let mut rest = codecs;
        let mut bb_codecs: Vec<BBCodecType> = Vec::new();
        while rest.len() > n_aa + 1
            invariant
                n_aa < rest@.len() <= orig.len(),
                rest@ == orig.take(rest@.len() as int),
                forall|j: int| n_aa < j < orig.len() ==> (#[trigger] orig[j]).kind() == CodecKind::BB,
                bb_codecs@.len() == orig.len() - rest@.len(),
                forall|j: int|
                    0 <= j < bb_codecs@.len() ==> CodecType::BB(bb_codecs@[j]) == orig[rest@.len()
                        + j],
            decreases rest@.len(),
        {
            let ghost len = rest@.len();
            match rest.pop() {
                Some(CodecType::BB(c)) => {
                    bb_codecs.insert(0, c);
                },
                _ => {
                    assert(false);
                },
            }
        }
        let ab_codec = match rest.pop() {
            Some(CodecType::AB(c)) => c,
            _ => {
                assert(false);
                ABCodecType::default()
            },
        };
        let mut aa_codecs: Vec<AACodecType> = Vec::new();
        while rest.len() > 0
            invariant
                rest@.len() <= n_aa < orig.len(),
                rest@ == orig.take(rest@.len() as int),
                forall|j: int| 0 <= j < n_aa ==> (#[trigger] orig[j]).kind() == CodecKind::AA,
                aa_codecs@.len() == n_aa - rest@.len(),
                forall|j: int|
                    0 <= j < aa_codecs@.len() ==> CodecType::AA(aa_codecs@[j]) == orig[rest@.len()
                        + j],
            decreases rest@.len(),
        {
            let ghost len = rest@.len();
            match rest.pop() {
                Some(CodecType::AA(c)) => {
                    aa_codecs.insert(0, c);
                },
                _ => {
                    assert(false);
                },
            }
        }
        let chain = CodecChain { aa_codecs, ab_codec, bb_codecs };
        Ok(chain)
    }

    pub fn ab_codec(&self) -> (c: &ABCodecType)
        ensures
            *c == self.ab_codec,
    {
        &self.ab_codec
    }

    /// Appends an array-to-array codec: it encodes last and decodes first
    /// among them.
    pub fn push_aa_codec(&mut self, codec: AACodecType)
        ensures
            final(self).aa_codecs@ == old(self).aa_codecs@.push(codec),
            final(self).ab_codec == old(self).ab_codec,
            final(self).bb_codecs == old(self).bb_codecs,
    {
        self.aa_codecs.push(codec);
    }

    /// Appends a bytes-to-bytes codec: it encodes last and decodes first.
    pub fn push_bb_codec(&mut self, codec: BBCodecType)
        ensures
            final(self).bb_codecs@ == old(self).bb_codecs@.push(codec),
            final(self).ab_codec == old(self).ab_codec,
            final(self).aa_codecs == old(self).aa_codecs,
    {
        self.bb_codecs.push(codec);
    }

    /// Puts another array-to-bytes codec in place and gives the one that
    /// stood there.
    pub fn replace_ab_codec(&mut self, ab_codec: ABCodecType) -> (before: ABCodecType)
        ensures
            before == old(self).ab_codec,
            final(self).ab_codec == ab_codec,
            final(self).aa_codecs == old(self).aa_codecs,
            final(self).bb_codecs == old(self).bb_codecs,
    {
        let mut c = ab_codec;
        std::mem::swap(&mut self.ab_codec, &mut c);
        c
    }

    /// A chain always holds its array-to-bytes codec.
    pub fn is_empty(&self) -> (b: bool)
        ensures
            !b,
    {
        false
    }

    /// Number of codecs.
    pub fn len(&self) -> (n: usize)
        requires
            self.aa_codecs@.len() + self.bb_codecs@.len() + 1 <= usize::MAX,
        ensures
            n == self.aa_codecs@.len() + self.bb_codecs@.len() + 1,
    {
        self.aa_codecs.len() + self.bb_codecs.len() + 1
    }

    /// Whether the codecs fit chunks of `ndim` axes.
    pub fn is_wf_for(&self, ndim: usize) -> (b: bool)
        ensures
            b == chain_wf(*self, ndim as nat),
        decreases self,
    {
        let mut i: usize = 0;
        while i < self.aa_codecs.len()
            invariant
                i <= self.aa_codecs@.len(),
                forall|j: int|
                    0 <= j < i ==> (#[trigger] self.aa_codecs@[j]).wf()
                        && self.aa_codecs@[j].spec_ndim() == ndim,
            decreases self.aa_codecs@.len() - i,
        {
            let c = &self.aa_codecs[i];
            let nd = match c.maybe_ndim() {
                Some(x) => x,
                None => 0,
            };
            if !c.is_valid() || nd != ndim {
                return false;
            }
            i += 1;
        }
        match &self.ab_codec {
            ABCodecType::Bytes(_) => true,
            ABCodecType::ShardingIndexed(s) => s.codecs.is_wf_for(ndim),
        }
    }

    /// The byte order of the array-to-bytes codec.
    pub fn endian(&self) -> (e: Option<crate::codecs::ab::bytes_codec::Endian>)
        ensures
            e == self.ab_codec.spec_endian(),
    {
        self.ab_codec.endian()
    }

    /// Encodes a chunk; what comes out decodes to the chunk. Fails
    /// exactly where [`chain_encodable`] says so.
    pub fn encode(&self, decoded: NDArr) -> (r: Result<Vec<u8>, ZarrError>)
        requires
            chain_wf(*self, decoded.shape@.len()),
            decoded.wf(),
        ensures
            r matches Ok(v) ==> encodes_to(*self, v@, decoded@),
            r matches Err(e) ==> chain_encodable(*self, decoded.shape@, decoded.data_type) == Err::<
                (),
                ZarrError,
            >(e),
            chain_encodable(*self, decoded.shape@, decoded.data_type) is Ok ==> r is Ok,
    {
        encode_chain(self, decoded)
    }

    /// Decodes a chunk of the given description from bytes.
    pub fn decode(&self, bytes: Vec<u8>, decoded_repr: &ArrayRepr) -> (r: Result<NDArr, ZarrError>)
        requires
            chain_wf(*self, decoded_repr.shape@.len()),
            decoded_repr.wf(),
            decoded_repr.fits(),
        ensures
            r matches Ok(a) ==> a.wf() && a.shape@ == decoded_repr.shape@ && a.data_type
                == decoded_repr.data_type && chain_decode(*self, bytes@, decoded_repr@) == Ok::<
                ArrayModel,
                ZarrError,
            >(a@),
            r matches Err(e) ==> chain_decode(*self, bytes@, decoded_repr@) == Err::<
                ArrayModel,
                ZarrError,
            >(e),
    {
        decode_chain(self, bytes, decoded_repr)
    }

    /// Whether all codecs that fix a number of axes fix the same.
    pub fn validate_ndim(&self) -> (r: Result<(), NdimError>)
        ensures
            r is Ok <==> forall|n: nat|
                self.spec_maybe_ndim() == Some(n) ==> (forall|j: int|
                    0 <= j < self.aa_codecs@.len() ==> (#[trigger] self.aa_codecs@[j]).spec_ndim()
                        == n) && (self.ab_codec.spec_maybe_ndim() matches Some(m) ==> m == n),
    {
        let first = match crate::MaybeNdim::maybe_ndim(self) {
            Some(n) => n,
            None => {
                return Ok(());
            },
        };
        let mut i: usize = 0;
        while i < self.aa_codecs.len()
            invariant
                i <= self.aa_codecs@.len(),
                self.spec_maybe_ndim() == Some(first as nat),
                forall|j: int| 0 <= j < i ==> (#[trigger] self.aa_codecs@[j]).spec_ndim() == first,
            decreases self.aa_codecs@.len() - i,
        {
            match self.aa_codecs[i].maybe_ndim() {
                Some(x) => {
                    if x != first {
                        return Err(NdimError::Inconsistent);
                    }
                },
                None => {},
            }
            i += 1;
        }
        match crate::MaybeNdim::maybe_ndim(&self.ab_codec) {
            Some(m) => {
                if m != first {
                    return Err(NdimError::Inconsistent);
                }
            },
            None => {},
        }
        Ok(())
    }
}

impl crate::MaybeNdim for CodecChain {
    /// The number of axes of the first array-to-array codec, or else what
    /// the array-to-bytes codec fixes.
    open spec fn spec_maybe_ndim(&self) -> Option<nat> {
        if self.aa_codecs@.len() > 0 {
            Some(self.aa_codecs@[0].spec_ndim())
        } else {
            self.ab_codec.spec_maybe_ndim()
        }
    }

    fn maybe_ndim(&self) -> (n: Option<usize>) {
        if self.aa_codecs.len() > 0 {
            self.aa_codecs[0].maybe_ndim()
        } else {
            crate::MaybeNdim::maybe_ndim(&self.ab_codec)
        }
    }
}

/// What every array-to-bytes codec does: it turns a chunk into bytes,
/// and bytes into a chunk of a given description.
pub trait ABCodec {
    /// The codec as one of the codecs of its family.
    spec fn as_codec(&self) -> ABCodecType;

    /// Encodes a chunk; what comes out decodes to the chunk.
    fn encode(&self, decoded: &NDArr) -> (r: Result<Vec<u8>, ZarrError>)
        requires
            ab_wf(self.as_codec(), decoded.shape@.len()),
            decoded.wf(),
        ensures
            r matches Ok(v) ==> ab_encodes_to(self.as_codec(), v@, decoded@),
            r matches Err(e) ==> ab_encodable(self.as_codec(), decoded.shape@, decoded.data_type)
                == Err::<(), ZarrError>(e),
            ab_encodable(self.as_codec(), decoded.shape@, decoded.data_type) is Ok ==> r is Ok,
    ;

    /// Decodes a chunk of the given description from bytes.
    fn decode(&self, bytes: Vec<u8>, decoded_repr: &ArrayRepr) -> (r: Result<NDArr, ZarrError>)
        requires
            ab_wf(self.as_codec(), decoded_repr.shape@.len()),
            decoded_repr.wf(),
            decoded_repr.fits(),
        ensures
            r matches Ok(a) ==> a.wf() && a.shape@ == decoded_repr.shape@ && a.data_type
                == decoded_repr.data_type && ab_decode(self.as_codec(), bytes@, decoded_repr@)
                == Ok::<ArrayModel, ZarrError>(a@),
            r matches Err(e) ==> ab_decode(self.as_codec(), bytes@, decoded_repr@) == Err::<
                ArrayModel,
                ZarrError,
            >(e),
    ;

    /// The byte order that the codec is configured with.
    fn endian(&self) -> (e: Option<crate::codecs::ab::bytes_codec::Endian>)
        ensures
            e == self.as_codec().spec_endian(),
    ;

    /// The byte order to use for a data type: the configured one, or any
    /// for a type of single bytes; an error where the type needs an order
    /// and none is configured.
    fn valid_endian(&self, data_type: &DataType) -> (r: Result<
        crate::codecs::ab::bytes_codec::Endian,
        crate::data_type::EndianError,
    >)
        ensures
            r == crate::data_type::spec_valid_endian(
                data_type.spec_has_endianness(),
                self.as_codec().spec_endian(),
            ),
    ;
}

impl ABCodec for ABCodecType {
    open spec fn as_codec(&self) -> ABCodecType {
        *self
    }

    fn encode(&self, decoded: &NDArr) -> (r: Result<Vec<u8>, ZarrError>) {
        encode_ab(self, decoded)
    }

    fn decode(&self, bytes: Vec<u8>, decoded_repr: &ArrayRepr) -> (r: Result<NDArr, ZarrError>) {
        decode_ab(self, bytes, decoded_repr)
    }

    fn endian(&self) -> (e: Option<crate::codecs::ab::bytes_codec::Endian>) {
        ABCodecType::endian(self)
    }

    fn valid_endian(&self, data_type: &DataType) -> (r: Result<
        crate::codecs::ab::bytes_codec::Endian,
        crate::data_type::EndianError,
    >) {
        ABCodecType::valid_endian(self, data_type)
    }
}

impl ABCodec for crate::codecs::ab::bytes_codec::BytesCodec {
    open spec fn as_codec(&self) -> ABCodecType {
        ABCodecType::Bytes(*self)
    }

    fn encode(&self, decoded: &NDArr) -> (r: Result<Vec<u8>, ZarrError>) {
        encode_ab(&ABCodecType::Bytes(*self), decoded)
    }

    fn decode(&self, bytes: Vec<u8>, decoded_repr: &ArrayRepr) -> (r: Result<NDArr, ZarrError>) {
        decode_ab(&ABCodecType::Bytes(*self), bytes, decoded_repr)
    }

    fn endian(&self) -> (e: Option<crate::codecs::ab::bytes_codec::Endian>) {
        self.endian
    }

    fn valid_endian(&self, data_type: &DataType) -> (r: Result<
        crate::codecs::ab::bytes_codec::Endian,
        crate::data_type::EndianError,
    >) {
        data_type.valid_endian(self.endian)
    }
}

/// A codec as the metadata of an array lists it: one that a chain of this
/// crate applies, or a blosc codec, whose work only the blosc library
/// does.
#[derive(Debug)]
pub enum ListedCodec {
    Chain(CodecType),
    Blosc(crate::codecs::bb::blosc_codec::BloscCodec),
}

/// A blosc codec stands at the given position of a list, before a codec
/// that a chain applies. Such a list cannot be used: only the blosc codecs
/// at the end of the list can be applied around a chain.
#[derive(Clone, Copy, Debug, PartialEq, Eq, Structural)]
pub struct BloscInside(pub usize);

/// Where the blosc codecs at the end of a list start: behind the last
/// codec that a chain applies.
pub open spec fn outer_start(list: Seq<ListedCodec>) -> int
    decreases list.len(),
{
    if list.len() == 0 {
        0
    } else if list.last() is Blosc {
        outer_start(list.drop_last())
    } else {
        list.len() as int
    }
}

/// The blosc codecs at the end of a list start at `n` where all codecs
/// from `n` on are blosc codecs and the one before is none.
pub proof fn lemma_outer_start(list: Seq<ListedCodec>, n: int)
    requires
        0 <= n <= list.len(),
        forall|j: int| n <= j < list.len() ==> (#[trigger] list[j]) is Blosc,
        n > 0 ==> list[n - 1] is Chain,
    ensures
        outer_start(list) == n,
    decreases list.len(),
{
    if list.len() > n {
        let pre = list.drop_last();
        assert forall|j: int| n <= j < pre.len() implies (#[trigger] pre[j]) is Blosc by {
            assert(pre[j] == list[j]);
        }
        if n > 0 {
            assert(pre[n - 1] == list[n - 1]);
        }
        lemma_outer_start(pre, n);
    }
}

/// The items in the opposite order.
fn reversed<T>(v: Vec<T>) -> (r: Vec<T>)
    ensures
        r@.len() == v@.len(),
        forall|i: int| 0 <= i < r@.len() ==> #[trigger] r@[i] == v@[v@.len() - 1 - i],
{
    let ghost all = v@;
    let mut v = v;
    let mut r: Vec<T> = Vec::new();
    while v.len() > 0
        invariant
            v@.len() <= all.len(),
            v@ == all.take(v@.len() as int),
            r@.len() == all.len() - v@.len(),
            forall|i: int| 0 <= i < r@.len() ==> #[trigger] r@[i] == all[all.len() - 1 - i],
        decreases v@.len(),
    {
        let ghost before = v@;
        match v.pop() {
            Some(x) => {
                assert(v@ =~= all.take(v@.len() as int));
                r.push(x);
            },
            None => {},
        }
    }
    r
}

/// Parts a list of codecs into the codecs that a chain applies and the
/// blosc codecs at its end, each in their order. A blosc codec anywhere
/// else makes the list unusable; the error names the last such position.
pub fn split_outer(list: Vec<ListedCodec>) -> (r: Result<
    (Vec<CodecType>, Vec<crate::codecs::bb::blosc_codec::BloscCodec>),
    BloscInside,
>)
    ensures
        r matches Ok((inner, outer)) ==> {
            &&& inner@.len() == outer_start(list@)
            &&& outer@.len() == list@.len() - outer_start(list@)
            &&& forall|j: int|
                0 <= j < inner@.len() ==> list@[j] == ListedCodec::Chain(#[trigger] inner@[j])
            &&& forall|j: int|
                0 <= j < outer@.len() ==> list@[outer_start(list@) + j] == ListedCodec::Blosc(
                    #[trigger] outer@[j],
                )
        },
        r matches Err(e) ==> {
            &&& e.0 < outer_start(list@)
            &&& list@[e.0 as int] is Blosc
            &&& forall|j: int| e.0 < j < outer_start(list@) ==> (#[trigger] list@[j]) is Chain
        },
        (forall|j: int| 0 <= j < outer_start(list@) ==> (#[trigger] list@[j]) is Chain) ==> r is Ok,
{
    let ghost all = list@;
    let mut rest = list;
    let mut outer_rev: Vec<crate::codecs::bb::blosc_codec::BloscCodec> = Vec::new();
    let mut inner_rev: Vec<CodecType> = Vec::new();
    let mut in_outer: bool = true;
    let ghost mut k: int = all.len() as int;
    assert(all.take(all.len() as int) =~= all);
    while rest.len() > 0
        invariant
            all == list@,
            rest@ == all.take(rest@.len() as int),
            rest@.len() <= all.len(),
            rest@.len() <= k <= all.len(),
            in_outer ==> k == rest@.len() && inner_rev@.len() == 0,
            !in_outer ==> k == outer_start(all),
            outer_rev@.len() == all.len() - k,
            inner_rev@.len() == k - rest@.len(),
            forall|j: int| k <= j < all.len() ==> (#[trigger] all[j]) is Blosc,
            forall|i: int|
                0 <= i < outer_rev@.len() ==> all[all.len() - 1 - i] == ListedCodec::Blosc(
                    #[trigger] outer_rev@[i],
                ),
            forall|i: int|
                0 <= i < inner_rev@.len() ==> all[k - 1 - i] == ListedCodec::Chain(
                    #[trigger] inner_rev@[i],
                ),
        decreases rest@.len(),
    {
        let ghost n = rest@.len() as int;
        match rest.pop() {
            Some(ListedCodec::Blosc(c)) => {
                assert(rest@ =~= all.take(n - 1));
                assert(all[n - 1] == ListedCodec::Blosc(c));
                if in_outer {
                    outer_rev.push(c);
                    proof {
                        k = n - 1;
                    }
                } else {
                    let at = rest.len();
                    proof {
                        assert forall|j: int| at < j < outer_start(all) implies (#[trigger] all[j]) is Chain by {
                            assert(all[k - 1 - (k - 1 - j)] == ListedCodec::Chain(
                                inner_rev@[k - 1 - j],
                            ));
                        }
                    }
                    return Err(BloscInside(at));
                }
            },
            Some(ListedCodec::Chain(c)) => {
                assert(rest@ =~= all.take(n - 1));
                assert(all[n - 1] == ListedCodec::Chain(c));
                proof {
                    if in_outer {
                        lemma_outer_start(all, n);
                    }
                }
                in_outer = false;
                inner_rev.push(c);
            },
            None => {},
        }
    }
    proof {
        if in_outer {
            lemma_outer_start(all, 0);
        }
    }
    let inner = reversed(inner_rev);
    let outer = reversed(outer_rev);
    proof {
        assert forall|j: int| 0 <= j < outer_start(all) implies (#[trigger] all[j]) is Chain by {
            assert(all[k - 1 - (k - 1 - j)] == ListedCodec::Chain(inner_rev@[k - 1 - j]));
        }
    }
    Ok((inner, outer))
}

} // verus!
