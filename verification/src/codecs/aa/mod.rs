//! Array-to-array codecs.

pub mod transpose;

pub use transpose::TransposeCodec;

use crate::codecs::ArrayRepr;
use crate::ndarr::inverse_of;
use crate::ndarr::permute;
use crate::ndarr::ArrayModel;
use crate::ndarr::NDArr;
use vstd::prelude::*;

verus! {

/// The array-to-array codecs.
#[derive(Debug)]
pub enum AACodecType {
    Transpose(TransposeCodec),
}

impl Clone for AACodecType {
    fn clone(&self) -> (r: AACodecType)
        ensures
            r.spec_order() == self.spec_order(),
    {
        match self {
            AACodecType::Transpose(t) => AACodecType::Transpose(t.clone()),
        }
    }
}

impl AACodecType {
    /// The order of axes in which the codec stores a chunk.
    pub open spec fn spec_order(&self) -> Seq<usize> {
        match self {
            AACodecType::Transpose(t) => t.order@,
        }
    }

    pub open spec fn wf(&self) -> bool {
        crate::ndarr::is_permutation(self.spec_order())
    }

    /// Number of axes of the chunks that the codec takes.
    pub open spec fn spec_ndim(&self) -> nat {
        self.spec_order().len()
    }

    pub open spec fn spec_encode(&self, m: ArrayModel) -> ArrayModel {
        m.permute(self.spec_order())
    }

    pub open spec fn spec_decode(&self, m: ArrayModel) -> ArrayModel {
        m.permute(inverse_of(self.spec_order()))
    }

    /// Shape of the encoded chunk.
    pub open spec fn spec_encoded_shape(&self, shape: Seq<u64>) -> Seq<u64> {
        permute(shape, self.spec_order())
    }

    pub fn maybe_ndim(&self) -> (n: Option<usize>)
        ensures
            n is Some,
            n->Some_0 == self.spec_ndim(),
    {
        match self {
            AACodecType::Transpose(t) => t.maybe_ndim(),
        }
    }

    /// Whether the configuration of the codec is sound.
    pub fn is_valid(&self) -> (b: bool)
        ensures
            b == self.wf(),
    {
        match self {
            AACodecType::Transpose(t) => t.validate().is_ok(),
        }
    }

    pub fn encode(&self, decoded: &NDArr) -> (out: NDArr)
        requires
            self.wf(),
            decoded.wf(),
            decoded.shape@.len() == self.spec_ndim(),
        ensures
            out.wf(),
            out@ == self.spec_encode(decoded@),
    {
        match self {
            AACodecType::Transpose(t) => t.encode(decoded),
        }
    }

    pub fn decode(&self, encoded: &NDArr) -> (out: NDArr)
        requires
            self.wf(),
            encoded.wf(),
            encoded.shape@.len() == self.spec_ndim(),
        ensures
            out.wf(),
            out@ == self.spec_decode(encoded@),
    {
        match self {
            AACodecType::Transpose(t) => t.decode(encoded),
        }
    }

    pub fn compute_encoded_representation_type(&self, decoded_repr: ArrayRepr) -> (r: ArrayRepr)
        requires
            self.wf(),
            decoded_repr.shape@.len() == self.spec_ndim(),
        ensures
            r.shape@ == self.spec_encoded_shape(decoded_repr.shape@),
            r.data_type == decoded_repr.data_type,
            r.fill_value@ == decoded_repr.fill_value@,
    {
        match self {
            AACodecType::Transpose(t) => t.compute_encoded_representation_type(decoded_repr),
        }
    }

    pub fn compute_encoded_size(&self, decoded_repr: ArrayRepr) -> (r: ArrayRepr)
        requires
            self.wf(),
            decoded_repr.shape@.len() == self.spec_ndim(),
        ensures
            r.shape@ == self.spec_encoded_shape(decoded_repr.shape@),
            r.data_type == decoded_repr.data_type,
            r.fill_value@ == decoded_repr.fill_value@,
    {
        match self {
            AACodecType::Transpose(t) => t.compute_encoded_size(decoded_repr),
        }
    }
}

/// Whether all codecs are sound and take chunks of `ndim` axes.
pub open spec fn aa_all_wf(codecs: Seq<AACodecType>, ndim: nat) -> bool {
    forall|i: int| 0 <= i < codecs.len() ==> (#[trigger] codecs[i]).wf() && codecs[i].spec_ndim() == ndim
}

/// The chunk after the codecs from position `i` on have encoded it, one
/// after another.
pub open spec fn spec_aa_encode_from(codecs: Seq<AACodecType>, i: int, m: ArrayModel) -> ArrayModel
    decreases codecs.len() - i,
{
    if i < 0 || i >= codecs.len() {
        m
    } else {
        spec_aa_encode_from(codecs, i + 1, codecs[i].spec_encode(m))
    }
}

/// The chunk after the codecs from position `i` on have decoded it, the
/// last of them first.
pub open spec fn spec_aa_decode_from(codecs: Seq<AACodecType>, i: int, m: ArrayModel) -> ArrayModel
    decreases codecs.len() - i,
{
    if i < 0 || i >= codecs.len() {
        m
    } else {
        codecs[i].spec_decode(spec_aa_decode_from(codecs, i + 1, m))
    }
}

/// The shape after the codecs from position `i` on have encoded a chunk of
/// the given shape.
pub open spec fn spec_aa_shape_from(codecs: Seq<AACodecType>, i: int, shape: Seq<u64>) -> Seq<u64>
    decreases codecs.len() - i,
{
    if i < 0 || i >= codecs.len() {
        shape
    } else {
        spec_aa_shape_from(codecs, i + 1, codecs[i].spec_encoded_shape(shape))
    }
}

/// The chunk after all codecs have encoded it, in order.
pub open spec fn spec_aa_encode_all(codecs: Seq<AACodecType>, m: ArrayModel) -> ArrayModel {
    spec_aa_encode_from(codecs, 0, m)
}

/// The chunk after all codecs have decoded it, in reverse order.
pub open spec fn spec_aa_decode_all(codecs: Seq<AACodecType>, m: ArrayModel) -> ArrayModel {
    spec_aa_decode_from(codecs, 0, m)
}

/// Encoding keeps arrays well formed and gives the shape that the codecs
/// announce.
pub proof fn lemma_aa_encode_wf(codecs: Seq<AACodecType>, i: int, m: ArrayModel)
    requires
        0 <= i <= codecs.len(),
        aa_all_wf(codecs, m.shape.len()),
        m.wf(),
    ensures
        spec_aa_encode_from(codecs, i, m).wf(),
        spec_aa_encode_from(codecs, i, m).shape == spec_aa_shape_from(codecs, i, m.shape),
        spec_aa_encode_from(codecs, i, m).shape.len() == m.shape.len(),
        spec_aa_encode_from(codecs, i, m).data_type == m.data_type,
    decreases codecs.len() - i,
{
    if i < codecs.len() {
        assert(codecs[i].wf());
        crate::ndarr::lemma_permute_inverse(m, codecs[i].spec_order());
        lemma_aa_encode_wf(codecs, i + 1, codecs[i].spec_encode(m));
    }
}

/// Decoding what the codecs from position `i` on encoded gives the chunk
/// back.
pub proof fn lemma_aa_roundtrip_from(codecs: Seq<AACodecType>, i: int, m: ArrayModel)
    requires
        0 <= i <= codecs.len(),
        aa_all_wf(codecs, m.shape.len()),
        m.wf(),
    ensures
        spec_aa_decode_from(codecs, i, spec_aa_encode_from(codecs, i, m)) == m,
    decreases codecs.len() - i,
{
    if i < codecs.len() {
        assert(codecs[i].wf());
        let y = codecs[i].spec_encode(m);
        crate::ndarr::lemma_permute_inverse(m, codecs[i].spec_order());
        lemma_aa_roundtrip_from(codecs, i + 1, y);
    }
}

/// Decoding what all codecs encoded gives the chunk back.
pub proof fn lemma_aa_roundtrip(codecs: Seq<AACodecType>, m: ArrayModel)
    requires
        aa_all_wf(codecs, m.shape.len()),
        m.wf(),
    ensures
        spec_aa_decode_all(codecs, spec_aa_encode_all(codecs, m)) == m,
{
    lemma_aa_roundtrip_from(codecs, 0, m);
}

/// The encoded shape has the axes of the shape, in another order.
pub proof fn lemma_aa_shape(codecs: Seq<AACodecType>, i: int, shape: Seq<u64>)
    requires
        0 <= i <= codecs.len(),
        aa_all_wf(codecs, shape.len()),
    ensures
        spec_aa_shape_from(codecs, i, shape).len() == shape.len(),
        crate::coord::product(spec_aa_shape_from(codecs, i, shape)) == crate::coord::product(shape),
    decreases codecs.len() - i,
{
    if i < codecs.len() {
        assert(codecs[i].wf());
        let order = codecs[i].spec_order();
        crate::ndarr::lemma_inverse_of(order);
        crate::ndarr::lemma_product_permute(shape, order, inverse_of(order));
        lemma_aa_shape(codecs, i + 1, permute(shape, order));
    }
}

/// Decoding a well-formed chunk of the encoded shape gives a well-formed
/// chunk of the shape.
pub proof fn lemma_aa_decode_shape(codecs: Seq<AACodecType>, i: int, shape: Seq<u64>, m: ArrayModel)
    requires
        0 <= i <= codecs.len(),
        aa_all_wf(codecs, shape.len()),
        m.wf(),
        m.shape == spec_aa_shape_from(codecs, i, shape),
    ensures
        spec_aa_decode_from(codecs, i, m).wf(),
        spec_aa_decode_from(codecs, i, m).shape == shape,
        spec_aa_decode_from(codecs, i, m).data_type == m.data_type,
    decreases codecs.len() - i,
{
    if i < codecs.len() {
        assert(codecs[i].wf());
        let order = codecs[i].spec_order();
        crate::ndarr::lemma_inverse_of(order);
        let inv = inverse_of(order);
        lemma_aa_decode_shape(codecs, i + 1, permute(shape, order), m);
        let y = spec_aa_decode_from(codecs, i + 1, m);
        crate::ndarr::lemma_permute_inverse(y, inv);
        assert(permute(permute(shape, order), inv) =~= shape);
    }
}

/// Encodes a chunk with every codec in turn.
pub fn aa_encode_all(codecs: &[AACodecType], decoded: NDArr) -> (out: NDArr)
    requires
        aa_all_wf(codecs@, decoded.shape@.len()),
        decoded.wf(),
    ensures
        out.wf(),
        out@ == spec_aa_encode_all(codecs@, decoded@),
{
    let ghost orig = decoded@;
    let mut d = decoded;
    let mut i: usize = 0;
    while i < codecs.len()
        invariant
            i <= codecs@.len(),
            aa_all_wf(codecs@, orig.shape.len()),
            d.wf(),
            d.shape@.len() == orig.shape.len(),
            spec_aa_encode_all(codecs@, orig) == spec_aa_encode_from(codecs@, i as int, d@),
        decreases codecs@.len() - i,
    {
        assert(codecs@[i as int].wf());
        let next = codecs[i].encode(&d);
        proof {
            d.lemma_view();
            crate::ndarr::lemma_permute_inverse(d@, codecs@[i as int].spec_order());
        }
        d = next;
        i += 1;
    }
    d
}

/// Decodes a chunk through every codec, the last first.
pub fn aa_decode_all(codecs: &[AACodecType], encoded: NDArr) -> (out: NDArr)
    requires
        aa_all_wf(codecs@, encoded.shape@.len()),
        encoded.wf(),
    ensures
        out.wf(),
        out@ == spec_aa_decode_all(codecs@, encoded@),
{
    let ghost orig = encoded@;
    let mut e = encoded;
    let mut i: usize = codecs.len();
    while i > 0
        invariant
            i <= codecs@.len(),
            aa_all_wf(codecs@, orig.shape.len()),
            e.wf(),
            e.shape@.len() == orig.shape.len(),
            e@ == spec_aa_decode_from(codecs@, i as int, orig),
        decreases i,
    {
        assert(codecs@[i as int - 1].wf());
        i -= 1;
        let next = codecs[i].decode(&e);
        proof {
            e.lemma_view();
            let order = codecs@[i as int].spec_order();
            crate::ndarr::lemma_inverse_of(order);
            crate::ndarr::lemma_permute_inverse(e@, inverse_of(order));
        }
        e = next;
    }
    e
}

/// Shape and fill value of a chunk after all codecs have encoded it.
pub fn aa_compute_encoded_representation(codecs: &[AACodecType], decoded_repr: ArrayRepr) -> (r:
    ArrayRepr)
    requires
        aa_all_wf(codecs@, decoded_repr.shape@.len()),
    ensures
        r.shape@ == spec_aa_shape_from(codecs@, 0, decoded_repr.shape@),
        r.shape@.len() == decoded_repr.shape@.len(),
        r.data_type == decoded_repr.data_type,
        r.fill_value@ == decoded_repr.fill_value@,
{
    let ghost orig = decoded_repr.shape@;
    let mut d = decoded_repr;
    let mut i: usize = 0;
    while i < codecs.len()
        invariant
            i <= codecs@.len(),
            aa_all_wf(codecs@, orig.len()),
            d.shape@.len() == orig.len(),
            d.data_type == decoded_repr.data_type,
            d.fill_value@ == decoded_repr.fill_value@,
            spec_aa_shape_from(codecs@, 0, orig) == spec_aa_shape_from(codecs@, i as int, d.shape@),
        decreases codecs@.len() - i,
    {
        assert(codecs@[i as int].wf());
        d = codecs[i].compute_encoded_representation_type(d);
        i += 1;
    }
    d
}

impl crate::MaybeNdim for AACodecType {
    open spec fn spec_maybe_ndim(&self) -> Option<nat> {
        Some(self.spec_ndim())
    }

    fn maybe_ndim(&self) -> (n: Option<usize>) {
        match self {
            AACodecType::Transpose(t) => Some(t.order.len()),
        }
    }
}

impl crate::Ndim for TransposeCodec {
    open spec fn spec_ndim(&self) -> nat {
        self.order@.len()
    }

    fn ndim(&self) -> (n: usize) {
        self.order.len()
    }
}

/// What every array-to-array codec does: it turns a chunk into another
/// chunk of the same elements, and back.
pub trait AACodec {
    /// What the codec keeps true of itself.
    spec fn codec_wf(&self) -> bool;

    /// Number of axes of the chunks that the codec takes.
    spec fn codec_ndim(&self) -> nat;

    /// The encoded chunk.
    spec fn encoded(&self, m: ArrayModel) -> ArrayModel;

    /// The chunk that was encoded.
    spec fn decoded(&self, m: ArrayModel) -> ArrayModel;

    /// Shape of the encoded chunk.
    spec fn encoded_shape(&self, shape: Seq<u64>) -> Seq<u64>;

    fn encode(&self, decoded: &NDArr) -> (out: NDArr)
        requires
            self.codec_wf(),
            decoded.wf(),
            decoded.shape@.len() == self.codec_ndim(),
        ensures
            out.wf(),
            out@ == self.encoded(decoded@),
    ;

    fn decode(&self, encoded: &NDArr) -> (out: NDArr)
        requires
            self.codec_wf(),
            encoded.wf(),
            encoded.shape@.len() == self.codec_ndim(),
        ensures
            out.wf(),
            out@ == self.decoded(encoded@),
    ;

    fn compute_encoded_representation_type(&self, decoded_repr: ArrayRepr) -> (r: ArrayRepr)
        requires
            self.codec_wf(),
            decoded_repr.shape@.len() == self.codec_ndim(),
        ensures
            r.shape@ == self.encoded_shape(decoded_repr.shape@),
            r.data_type == decoded_repr.data_type,
            r.fill_value@ == decoded_repr.fill_value@,
    ;

    fn compute_encoded_size(&self, decoded_repr: ArrayRepr) -> (r: ArrayRepr)
        requires
            self.codec_wf(),
            decoded_repr.shape@.len() == self.codec_ndim(),
        ensures
            r.shape@ == self.encoded_shape(decoded_repr.shape@),
            r.data_type == decoded_repr.data_type,
            r.fill_value@ == decoded_repr.fill_value@,
    ;
}

impl AACodec for TransposeCodec {
    open spec fn codec_wf(&self) -> bool {
        self.wf()
    }

    open spec fn codec_ndim(&self) -> nat {
        self.order@.len()
    }

    open spec fn encoded(&self, m: ArrayModel) -> ArrayModel {
        m.permute(self.order@)
    }

    open spec fn decoded(&self, m: ArrayModel) -> ArrayModel {
        m.permute(inverse_of(self.order@))
    }

    open spec fn encoded_shape(&self, shape: Seq<u64>) -> Seq<u64> {
        permute(shape, self.order@)
    }

    fn encode(&self, decoded: &NDArr) -> (out: NDArr) {
        TransposeCodec::encode(self, decoded)
    }

    fn decode(&self, encoded: &NDArr) -> (out: NDArr) {
        TransposeCodec::decode(self, encoded)
    }

    fn compute_encoded_representation_type(&self, decoded_repr: ArrayRepr) -> (r: ArrayRepr) {
        TransposeCodec::compute_encoded_representation_type(self, decoded_repr)
    }

    fn compute_encoded_size(&self, decoded_repr: ArrayRepr) -> (r: ArrayRepr) {
        TransposeCodec::compute_encoded_size(self, decoded_repr)
    }
}

impl AACodec for AACodecType {
    open spec fn codec_wf(&self) -> bool {
        self.wf()
    }

    open spec fn codec_ndim(&self) -> nat {
        self.spec_ndim()
    }

    open spec fn encoded(&self, m: ArrayModel) -> ArrayModel {
        self.spec_encode(m)
    }

    open spec fn decoded(&self, m: ArrayModel) -> ArrayModel {
        self.spec_decode(m)
    }

    open spec fn encoded_shape(&self, shape: Seq<u64>) -> Seq<u64> {
        self.spec_encoded_shape(shape)
    }

    fn encode(&self, decoded: &NDArr) -> (out: NDArr) {
        AACodecType::encode(self, decoded)
    }

    fn decode(&self, encoded: &NDArr) -> (out: NDArr) {
        AACodecType::decode(self, encoded)
    }

    fn compute_encoded_representation_type(&self, decoded_repr: ArrayRepr) -> (r: ArrayRepr) {
        AACodecType::compute_encoded_representation_type(self, decoded_repr)
    }

    fn compute_encoded_size(&self, decoded_repr: ArrayRepr) -> (r: ArrayRepr) {
        AACodecType::compute_encoded_size(self, decoded_repr)
    }
}

} // verus!
