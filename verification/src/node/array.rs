use crate::chunk_arr::in_bounds;
use crate::chunk_arr::lemma_counts_le_lengths;
use crate::chunk_arr::lemma_share_regions;
use crate::chunk_arr::lemma_span_cell;
use crate::chunk_arr::lemma_span_local;
use crate::chunk_arr::ravel;
use crate::chunk_arr::span_chunk_idx;
use crate::chunk_arr::span_counts;
use crate::chunk_arr::span_lengths;
use crate::chunk_arr::span_local;
use crate::chunk_arr::spans_ok;
use crate::chunk_arr::unravel;
use crate::chunk_arr::walk_len;
use crate::chunk_grid::all_positive;
use crate::chunk_grid::clip_nonempty;
use crate::chunk_grid::clipped;
use crate::chunk_grid::ends_fit;
use crate::chunk_grid::lemma_clipped;
use crate::chunk_grid::lemma_region_cells;
use crate::chunk_grid::lemma_region_spans;
use crate::chunk_grid::region_spans;
use crate::chunk_grid::shapes_of;
use crate::chunk_grid::voxel_chunk_index;
use crate::chunk_grid::zip_offset_shape;
use crate::chunk_arr::span_chunk_region;
use crate::chunk_arr::span_out_region;
use crate::chunk_grid::voxel_chunk_offset;
use crate::chunk_grid::ArraySlice;
use crate::ndarr::in_region;
use crate::ndarr::region_within;
use crate::ndarr::shift;
use crate::ndarr::unshift;
use crate::chunk_grid::ArrayRegion;
use crate::chunk_grid::ChunkGrid;
use crate::chunk_grid::ChunkGridType;
use crate::chunk_key_encoding::ChunkKeyEncoder;
use crate::chunk_key_encoding::ChunkKeyEncoding;
use crate::codecs::aa::AACodecType;
use crate::codecs::ab::ABCodecType;
use crate::codecs::bb::BBCodecType;
use crate::codecs::chain_decode;
use crate::codecs::chain_wf;
use crate::codecs::encodes_to;
use crate::codecs::ArrayRepr;
use crate::codecs::CodecChain;
use crate::codecs::ReprModel;
use crate::coord::product;
use crate::coord::GridCoord;
use crate::data_type::spec_fill_bytes;
use crate::data_type::DataType;
use crate::data_type::NBytes;
use crate::json::JsonObject;
use crate::json::JsonValue;
use crate::ndarr::ArrayModel;
use crate::ndarr::NDArr;
use crate::node::ReadableMetadata;
use crate::node::WriteableMetadata;
use crate::store::ListableStore;
use crate::store::NodeKey;
use crate::store::ReadableStore;
use crate::store::WriteableStore;
use crate::MaybeNdim;
use crate::ZarrError;
use vstd::prelude::*;

verus! {

/// Whether two stores hold the same under the key `k`.
pub open spec fn same_at(
    a: Map<Seq<Seq<char>>, Seq<u8>>,
    b: Map<Seq<Seq<char>>, Seq<u8>>,
    k: Seq<Seq<char>>,
) -> bool {
    a.contains_key(k) == b.contains_key(k) && a[k] == b[k]
}

/// Whether the chunk `m` holds at `off` what a write leaves there: the
/// cell of `within` that lies at `off` in the place of the covered part
/// `cr` of the chunk, or, outside that part, what the chunk held before.
pub open spec fn patch_ok(
    m: ArrayModel,
    before: Result<ArrayModel, ZarrError>,
    within: NDArr,
    cr: Seq<ArraySlice>,
    or: Seq<ArraySlice>,
    off: Seq<u64>,
) -> bool {
    if in_region(off, cr) {
        m.at(off) == within.at(shift(unshift(off, cr), or))
    } else {
        before matches Ok(b) && m.at(off) == b.at(off)
    }
}

/// A storage transformer. The format names none yet, so metadata that
/// holds one cannot be used.
#[derive(Debug)]
pub enum StorageTransformer {
    /// A transformer of the given name, which this crate does not know.
    Unknown(String),
}

/// Why an extension stops the metadata from being used.
#[derive(Clone, Copy, Debug, PartialEq, Eq, Structural)]
pub enum ExtensionError {
    /// The extension is no JSON object.
    NotAnObject,
    /// The extension does not say whether it must be understood.
    NoMustUnderstand,
    /// What the extension says of being understood is no boolean.
    NotABoolean,
    /// The extension must be understood, and is not.
    MustUnderstand,
}

/// A member of the metadata that this crate does not know.
#[derive(Debug)]
pub struct Extension(pub JsonValue);

/// `must_understand`
pub open spec fn must_understand_key() -> Seq<char> {
    seq!['m', 'u', 's', 't', '_', 'u', 'n', 'd', 'e', 'r', 's', 't', 'a', 'n', 'd']
}

impl Extension {
    /// Whether the extension may be passed over: it is an object whose
    /// member `must_understand` is false.
    pub open spec fn spec_try_understand(&self) -> Result<(), ExtensionError> {
        match self.0 {
            JsonValue::Object(o) => {
                let i = crate::json::spec_find_key(o@, must_understand_key());
                if i >= o@.len() {
                    Err(ExtensionError::NoMustUnderstand)
                } else {
                    match o@[i].1 {
                        JsonValue::Bool(b) => if b {
                            Err(ExtensionError::MustUnderstand)
                        } else {
                            Ok(())
                        },
                        _ => Err(ExtensionError::NotABoolean),
                    }
                }
            },
            _ => Err(ExtensionError::NotAnObject),
        }
    }

    /// Whether the extension may be passed over.
    pub fn try_understand(&self) -> (r: Result<(), ExtensionError>)
        ensures
            r == self.spec_try_understand(),
    {
        let o = match &self.0 {
            JsonValue::Object(o) => o,
            _ => {
                return Err(ExtensionError::NotAnObject);
            },
        };
        let k: Vec<char> = vec!['m', 'u', 's', 't', '_', 'u', 'n', 'd', 'e', 'r', 's', 't', 'a', 'n', 'd'];
        let key = crate::text::string_from_chars(k.as_slice());
        match crate::json::get_value(o, key.as_str()) {
            None => Err(ExtensionError::NoMustUnderstand),
            Some(v) => match v {
                JsonValue::Bool(b) => {
                    if *b {
                        Err(ExtensionError::MustUnderstand)
                    } else {
                        Ok(())
                    }
                },
                _ => Err(ExtensionError::NotABoolean),
            },
        }
    }
}

/// Why metadata of an array cannot be used.
#[derive(Clone, Copy, Debug, PartialEq, Eq, Structural)]
pub enum MetadataError {
    /// An extension must be understood.
    Extension(ExtensionError),
    /// Storage transformers are named.
    StorageTransformers,
    /// Shape, chunk grid, dimension names and codecs do not all have the
    /// same number of axes.
    InconsistentDimensions,
    /// A chunk length is zero.
    ZeroChunkDimension,
    /// An order of axes of a codec is no permutation.
    InvalidCodec,
    /// The data type needs a byte order and the codecs name none.
    UndefinedEndian,
    /// The fill value is no value of the data type.
    InvalidFillValue,
    /// A chunk has more bytes than can be counted.
    ChunkTooLarge,
}

/// The metadata of an array.
#[derive(Debug)]
pub struct ArrayMetadata {
    pub zarr_format: usize,
    pub shape: GridCoord,
    pub data_type: DataType,
    pub chunk_grid: ChunkGridType,
    pub chunk_key_encoding: ChunkKeyEncoding,
    pub fill_value: JsonValue,
    pub storage_transformers: Vec<StorageTransformer>,
    pub codecs: CodecChain,
    pub attributes: JsonObject,
    pub dimension_names: Option<Vec<Option<String>>>,
    pub extensions: Vec<(String, Extension)>,
}

/// The first extension of the list that may not be passed over, if there
/// is one.
pub open spec fn first_extension_error(ext: Seq<(String, Extension)>, i: int) -> Result<
    (),
    ExtensionError,
>
    decreases ext.len() - i,
{
    if i < 0 || i >= ext.len() {
        Ok(())
    } else {
        match ext[i].1.spec_try_understand() {
            Err(e) => Err(e),
            Ok(()) => first_extension_error(ext, i + 1),
        }
    }
}

impl crate::Ndim for ArrayMetadata {
    open spec fn spec_ndim(&self) -> nat {
        self.shape@.len()
    }

    fn ndim(&self) -> (n: usize) {
        self.shape.len()
    }
}

impl ReadableMetadata for ArrayMetadata {
    open spec fn spec_attributes(&self) -> Seq<(String, JsonValue)> {
        self.attributes@
    }

    open spec fn spec_zarr_format(&self) -> usize {
        self.zarr_format
    }

    open spec fn spec_is_array(&self) -> bool {
        true
    }

    fn get_zarr_format(&self) -> (n: usize) {
        self.zarr_format
    }

    fn is_array(&self) -> (b: bool) {
        true
    }

    fn get_attributes(&self) -> (a: &JsonObject) {
        &self.attributes
    }

    fn has_attribute(&self, key: &str) -> (b: bool) {
        crate::json::has_key(&self.attributes, key)
    }

    fn get_attribute_value(&self, key: &str) -> (r: Option<&JsonValue>) {
        crate::json::get_value(&self.attributes, key)
    }
}

impl WriteableMetadata for ArrayMetadata {
    open spec fn spec_attrs(&self) -> Seq<(String, JsonValue)> {
        self.attributes@
    }

    fn set_attribute(&mut self, key: &str, value: JsonValue) -> (r: Option<JsonValue>) {
        crate::json::insert_value(&mut self.attributes, key, value)
    }

    fn clear_attributes(&mut self) -> (n: usize) {
        let n = self.attributes.len();
        self.attributes.clear();
        n
    }

    fn remove_attribute(&mut self, key: &str) -> (r: Option<JsonValue>) {
        crate::json::remove_value(&mut self.attributes, key)
    }
}

impl ArrayMetadata {
    /// The metadata with the given values, which are taken as they are.
    pub fn new_unchecked(
        zarr_format: usize,
        shape: GridCoord,
        data_type: DataType,
        chunk_grid: ChunkGridType,
        chunk_key_encoding: ChunkKeyEncoding,
        fill_value: JsonValue,
        storage_transformers: Vec<StorageTransformer>,
        codecs: CodecChain,
        attributes: JsonObject,
        dimension_names: Option<Vec<Option<String>>>,
        extensions: Vec<(String, Extension)>,
    ) -> (m: ArrayMetadata)
        ensures
            m == (ArrayMetadata {
                zarr_format,
                shape,
                data_type,
                chunk_grid,
                chunk_key_encoding,
                fill_value,
                storage_transformers,
                codecs,
                attributes,
                dimension_names,
                extensions,
            }),
    {
        ArrayMetadata {
            zarr_format,
            shape,
            data_type,
            chunk_grid,
            chunk_key_encoding,
            fill_value,
            storage_transformers,
            codecs,
            attributes,
            dimension_names,
            extensions,
        }
    }

    /// The metadata with the given values, where they obey all rules; else
    /// the first rule that they break.
    pub fn new(
        zarr_format: usize,
        shape: GridCoord,
        data_type: DataType,
        chunk_grid: ChunkGridType,
        chunk_key_encoding: ChunkKeyEncoding,
        fill_value: JsonValue,
        storage_transformers: Vec<StorageTransformer>,
        codecs: CodecChain,
        attributes: JsonObject,
        dimension_names: Option<Vec<Option<String>>>,
        extensions: Vec<(String, Extension)>,
    ) -> (r: Result<ArrayMetadata, MetadataError>)
        ensures
            ({
                let m = ArrayMetadata {
                    zarr_format,
                    shape,
                    data_type,
                    chunk_grid,
                    chunk_key_encoding,
                    fill_value,
                    storage_transformers,
                    codecs,
                    attributes,
                    dimension_names,
                    extensions,
                };
                r == match m.spec_validate() {
                    Ok(()) => Ok::<ArrayMetadata, MetadataError>(m),
                    Err(e) => Err::<ArrayMetadata, MetadataError>(e),
                }
            }),
    {
        let out = ArrayMetadata::new_unchecked(
            zarr_format,
            shape,
            data_type,
            chunk_grid,
            chunk_key_encoding,
            fill_value,
            storage_transformers,
            codecs,
            attributes,
            dimension_names,
            extensions,
        );
        match out.validate() {
            Ok(()) => Ok(out),
            Err(e) => Err(e),
        }
    }

    /// Whether all that has axes has as many as the shape, and the codecs
    /// fit chunks of so many axes.
    pub open spec fn dimensions_ok(&self) -> bool {
        &&& self.chunk_grid.spec_chunk_shape().len() == self.shape@.len()
        &&& (self.dimension_names matches Some(d) ==> d@.len() == self.shape@.len())
        &&& (forall|i: int|
            0 <= i < self.codecs.aa_codecs@.len() ==> (
            #[trigger] self.codecs.aa_codecs@[i]).spec_ndim() == self.shape@.len())
        &&& (self.codecs.ab_codec.spec_maybe_ndim() matches Some(m) ==> m == self.shape@.len())
    }

    /// What the check of the metadata gives: the first rule that the
    /// metadata breaks, in the order of the checks.
    pub open spec fn spec_validate(&self) -> Result<(), MetadataError> {
        match first_extension_error(self.extensions@, 0) {
            Err(e) => Err(MetadataError::Extension(e)),
            Ok(()) => if self.storage_transformers@.len() != 0 {
                Err(MetadataError::StorageTransformers)
            } else if !self.dimensions_ok() {
                Err(MetadataError::InconsistentDimensions)
            } else if !all_positive(self.chunk_grid.spec_chunk_shape()) {
                Err(MetadataError::ZeroChunkDimension)
            } else if !chain_wf(self.codecs, self.shape@.len()) {
                Err(MetadataError::InvalidCodec)
            } else if crate::data_type::spec_valid_endian(
                self.data_type.spec_has_endianness(),
                self.codecs.ab_codec.spec_endian(),
            ) is Err {
                Err(MetadataError::UndefinedEndian)
            } else if spec_fill_bytes(self.data_type, self.fill_value).is_none()
                || self.data_type.spec_nbytes() == 0 {
                Err(MetadataError::InvalidFillValue)
            } else if product(self.chunk_grid.spec_chunk_shape()) * self.data_type.spec_nbytes()
                > usize::MAX {
                Err(MetadataError::ChunkTooLarge)
            } else {
                Ok(())
            },
        }
    }

    /// Whether the metadata obeys all rules.
    pub open spec fn valid(&self) -> bool {
        self.spec_validate() is Ok
    }

    /// Checks the metadata against the rules of the format.
    pub fn validate(&self) -> (r: Result<(), MetadataError>)
        ensures
            r == self.spec_validate(),
    {
        match self.try_understand_extensions() {
            Err(e) => {
                return Err(MetadataError::Extension(e));
            },
            Ok(()) => {},
        }
        if self.storage_transformers.len() != 0 {
            return Err(MetadataError::StorageTransformers);
        }
        if !self.validate_dimensions() {
            return Err(MetadataError::InconsistentDimensions);
        }
        if !self.chunk_grid.is_valid() {
            return Err(MetadataError::ZeroChunkDimension);
        }
        if !self.codecs.is_wf_for(self.shape.len()) {
            return Err(MetadataError::InvalidCodec);
        }
        if !self.validate_codecs() {
            return Err(MetadataError::UndefinedEndian);
        }
        if self.data_type.nbytes() == 0 {
            return Err(MetadataError::InvalidFillValue);
        }
        match self.data_type.fill_value_bytes(&self.fill_value) {
            None => {
                return Err(MetadataError::InvalidFillValue);
            },
            Some(_) => {},
        }
        let cs = self.chunk_grid.chunk_shape_unchecked(self.shape.as_slice());
        let repr = ArrayRepr::new(cs.as_slice(), self.data_type, Vec::new());
        match crate::codecs::ab::bytes_codec::BytesCodec::new(None).compute_encoded_size(&repr) {
            None => Err(MetadataError::ChunkTooLarge),
            Some(_) => Ok(()),
        }
    }

    /// Checks that every extension may be passed over.
    pub fn try_understand_extensions(&self) -> (r: Result<(), ExtensionError>)
        ensures
            r == first_extension_error(self.extensions@, 0),
    {
        let mut i: usize = 0;
        while i < self.extensions.len()
            invariant
                i <= self.extensions@.len(),
                first_extension_error(self.extensions@, 0) == first_extension_error(
                    self.extensions@,
                    i as int,
                ),
            decreases self.extensions@.len() - i,
        {
            match self.extensions[i].1.try_understand() {
                Err(e) => {
                    return Err(e);
                },
                Ok(()) => {},
            }
            i += 1;
        }
        Ok(())
    }

    /// Checks that all that has axes has as many as the shape.
    pub fn validate_dimensions(&self) -> (b: bool)
        ensures
            b == self.dimensions_ok(),
    {
        let n = self.shape.len();
        match self.chunk_grid.maybe_ndim() {
            Some(m) => {
                if m != n {
                    return false;
                }
            },
            None => {},
        }
        match &self.dimension_names {
            Some(d) => {
                if d.len() != n {
                    return false;
                }
            },
            None => {},
        }
        let mut i: usize = 0;
        while i < self.codecs.aa_codecs.len()
            invariant
                n == self.shape@.len(),
                i <= self.codecs.aa_codecs@.len(),
                forall|j: int|
                    0 <= j < i ==> (#[trigger] self.codecs.aa_codecs@[j]).spec_ndim() == n,
            decreases self.codecs.aa_codecs@.len() - i,
        {
            match self.codecs.aa_codecs[i].maybe_ndim() {
                Some(m) => {
                    if m != n {
                        return false;
                    }
                },
                None => {},
            }
            i += 1;
        }
        match crate::MaybeNdim::maybe_ndim(&self.codecs.ab_codec) {
            Some(m) => {
                if m != n {
                    return false;
                }
            },
            None => {},
        }
        true
    }

    /// Checks that the codecs name a byte order where the data type needs
    /// one.
    pub fn validate_codecs(&self) -> (b: bool)
        ensures
            b == (crate::data_type::spec_valid_endian(
                self.data_type.spec_has_endianness(),
                self.codecs.ab_codec.spec_endian(),
            ) is Ok),
    {
        self.data_type.valid_endian(self.codecs.endian()).is_ok()
    }

    /// The bytes of the fill value, lowest byte first.
    pub fn get_effective_fill_value(&self) -> (r: Option<Vec<u8>>)
        ensures
            r matches Some(b) ==> spec_fill_bytes(self.data_type, self.fill_value) == Some(b@)
                && b@.len() == self.data_type.spec_nbytes(),
            r.is_none() ==> spec_fill_bytes(self.data_type, self.fill_value).is_none(),
    {
        self.data_type.fill_value_bytes(&self.fill_value)
    }

    /// Whether a chunk with the given index holds cells of the array: on
    /// every axis the chunk starts within the array.
    pub open spec fn spec_chunk_should_exist(&self, chunk: Seq<u64>) -> bool {
        forall|d: int|
            0 <= d < self.shape@.len() ==> #[trigger] chunk[d]
                * self.chunk_grid.spec_chunk_shape()[d] < self.shape@[d]
    }

    /// Whether a chunk with the given index holds cells of the array.
    pub fn chunk_should_exist(&self, chunk: &[u64]) -> (b: bool)
        requires
            chunk@.len() == self.shape@.len(),
            self.chunk_grid.spec_chunk_shape().len() == self.shape@.len(),
            self.chunk_grid.grid_wf(),
        ensures
            b == self.spec_chunk_should_exist(chunk@),
    {
        self.chunk_should_exist_unchecked(chunk)
    }

    pub fn chunk_should_exist_unchecked(&self, chunk: &[u64]) -> (b: bool)
        requires
            chunk@.len() == self.shape@.len(),
            self.chunk_grid.spec_chunk_shape().len() == self.shape@.len(),
            self.chunk_grid.grid_wf(),
        ensures
            b == self.spec_chunk_should_exist(chunk@),
    {
        let shape = self.shape.as_slice();
        let cs = self.chunk_grid.chunk_shape_unchecked(shape);
        let c = cs.as_slice();
        let mut d: usize = 0;
        while d < shape.len()
            invariant
                shape@ == self.shape@,
                c@ == self.chunk_grid.spec_chunk_shape(),
                chunk@.len() == shape@.len(),
                c@.len() == shape@.len(),
                d <= shape@.len(),
                forall|e: int| 0 <= e < d ==> #[trigger] chunk@[e] * c@[e] < shape@[e],
            decreases shape@.len() - d,
        {
            match chunk[d].checked_mul(c[d]) {
                Some(x) => {
                    if x >= shape[d] {
                        return false;
                    }
                },
                None => {
                    return false;
                },
            }
            d += 1;
        }
        true
    }
}

/// Builds the metadata of an array step by step.
#[derive(Debug)]
pub struct ArrayMetadataBuilder {
    pub shape: GridCoord,
    pub data_type: DataType,
    pub chunk_grid: Option<ChunkGridType>,
    pub chunk_key_encoding: Option<ChunkKeyEncoding>,
    pub fill_value: Option<JsonValue>,
    pub storage_transformers: Vec<StorageTransformer>,
    pub codecs: CodecChain,
    pub attributes: JsonObject,
    pub dimension_names: Option<Vec<Option<String>>>,
    pub extensions: Vec<(String, Extension)>,
}

impl crate::Ndim for ArrayMetadataBuilder {
    open spec fn spec_ndim(&self) -> nat {
        self.shape@.len()
    }

    fn ndim(&self) -> (n: usize) {
        self.shape.len()
    }
}

impl ArrayMetadataBuilder {
    /// Starts the metadata of an array of the given shape and data type.
    /// Unless a chunk grid is set, the whole array is one chunk.
    pub fn new(shape: &[u64], data_type: DataType) -> (b: ArrayMetadataBuilder)
        ensures
            b.shape@ == shape@,
            b.data_type == data_type,
            b.chunk_grid.is_none(),
            b.chunk_key_encoding.is_none(),
            b.fill_value.is_none(),
            b.dimension_names.is_none(),
            b.attributes@.len() == 0,
            b.extensions@.len() == 0,
            b.storage_transformers@.len() == 0,
            b.codecs.aa_codecs@.len() == 0,
            b.codecs.bb_codecs@.len() == 0,
            b.codecs.ab_codec == ABCodecType::Bytes(
                (crate::codecs::ab::bytes_codec::BytesCodec {
                    endian: Some(crate::codecs::ab::bytes_codec::Endian::Little),
                }),
            ),
    {
        ArrayMetadataBuilder {
            shape: GridCoord::from_slice(shape),
            data_type,
            chunk_grid: None,
            chunk_key_encoding: None,
            fill_value: None,
            storage_transformers: Vec::new(),
            codecs: CodecChain::default(),
            attributes: Vec::new(),
            dimension_names: None,
            extensions: Vec::new(),
        }
    }

    /// Sets the chunk grid. Fails where the grid has another number of
    /// axes than the array.
    pub fn chunk_grid(self, chunk_grid: ChunkGridType) -> (r: Result<
        ArrayMetadataBuilder,
        crate::NdimError,
    >)
        ensures
            r is Ok <==> chunk_grid.spec_chunk_shape().len() == self.shape@.len(),
            r matches Ok(b) ==> b.chunk_grid == Some(chunk_grid) && b.shape == self.shape
                && b.data_type == self.data_type && b.codecs == self.codecs && b.fill_value
                == self.fill_value && b.chunk_key_encoding == self.chunk_key_encoding
                && b.dimension_names == self.dimension_names && b.attributes == self.attributes
                && b.extensions == self.extensions && b.storage_transformers
                == self.storage_transformers,
    {
        match chunk_grid.maybe_ndim() {
            Some(n) => {
                if n != self.shape.len() {
                    return Err(crate::NdimError::Inconsistent);
                }
            },
            None => {},
        }
        let mut b = self;
        b.chunk_grid = Some(chunk_grid);
        Ok(b)
    }

    /// Sets the encoding of chunk keys.
    pub fn chunk_key_encoding(self, chunk_key_encoding: ChunkKeyEncoding) -> (b:
        ArrayMetadataBuilder)
        ensures
            b.chunk_key_encoding == Some(chunk_key_encoding),
            b.shape == self.shape,
            b.data_type == self.data_type,
            b.codecs == self.codecs,
            b.fill_value == self.fill_value,
            b.chunk_grid == self.chunk_grid,
            b.dimension_names == self.dimension_names,
            b.attributes == self.attributes,
            b.extensions == self.extensions,
            b.storage_transformers == self.storage_transformers,
    {
        let mut b = self;
        b.chunk_key_encoding = Some(chunk_key_encoding);
        b
    }

    /// Sets the fill value.
    pub fn fill_value(self, fill_value: JsonValue) -> (b: ArrayMetadataBuilder)
        ensures
            b.fill_value == Some(fill_value),
            b.shape == self.shape,
            b.data_type == self.data_type,
            b.codecs == self.codecs,
            b.chunk_key_encoding == self.chunk_key_encoding,
            b.chunk_grid == self.chunk_grid,
            b.dimension_names == self.dimension_names,
            b.attributes == self.attributes,
            b.extensions == self.extensions,
            b.storage_transformers == self.storage_transformers,
    {
        let mut b = self;
        b.fill_value = Some(fill_value);
        b
    }

    /// Sets the array-to-bytes codec. Fails where the codec fixes another
    /// number of axes than the array has, and where the data type needs a
    /// byte order and the codec names none.
    pub fn ab_codec(self, codec: ABCodecType) -> (r: Result<ArrayMetadataBuilder, MetadataError>)
        ensures
            (codec.spec_maybe_ndim() matches Some(m) && m != self.shape@.len()) ==> r == Err::<
                ArrayMetadataBuilder,
                MetadataError,
            >(MetadataError::InconsistentDimensions),
            r matches Ok(b) ==> b.codecs.ab_codec == codec && b.codecs.aa_codecs
                == self.codecs.aa_codecs && b.codecs.bb_codecs == self.codecs.bb_codecs && b.shape
                == self.shape && b.data_type == self.data_type && b.fill_value == self.fill_value
                && b.chunk_key_encoding == self.chunk_key_encoding && b.chunk_grid
                == self.chunk_grid && b.dimension_names == self.dimension_names && b.attributes
                == self.attributes && b.extensions == self.extensions && b.storage_transformers
                == self.storage_transformers,
            r is Ok <==> (codec.spec_maybe_ndim() matches Some(m) ==> m == self.shape@.len())
                && crate::data_type::spec_valid_endian(
                self.data_type.spec_has_endianness(),
                codec.spec_endian(),
            ) is Ok,
    {
        match crate::MaybeNdim::maybe_ndim(&codec) {
            Some(n) => {
                if n != self.shape.len() {
                    return Err(MetadataError::InconsistentDimensions);
                }
            },
            None => {},
        }
        if codec.valid_endian(&self.data_type).is_err() {
            return Err(MetadataError::UndefinedEndian);
        }
        let mut b = self;
        let _ = b.codecs.replace_ab_codec(codec);
        Ok(b)
    }

    /// Appends an array-to-array codec. Fails where the codec takes
    /// another number of axes than the array has.
    pub fn push_aa_codec(self, codec: AACodecType) -> (r: Result<
        ArrayMetadataBuilder,
        crate::NdimError,
    >)
        ensures
            r is Ok <==> codec.spec_ndim() == self.shape@.len(),
            r matches Ok(b) ==> b.codecs.aa_codecs@ == self.codecs.aa_codecs@.push(codec)
                && b.codecs.ab_codec == self.codecs.ab_codec && b.codecs.bb_codecs
                == self.codecs.bb_codecs && b.shape == self.shape && b.data_type
                == self.data_type && b.fill_value == self.fill_value && b.chunk_key_encoding
                == self.chunk_key_encoding && b.chunk_grid == self.chunk_grid
                && b.dimension_names == self.dimension_names && b.attributes == self.attributes
                && b.extensions == self.extensions && b.storage_transformers
                == self.storage_transformers,
    {
        match codec.maybe_ndim() {
            Some(n) => {
                if n != self.shape.len() {
                    return Err(crate::NdimError::Inconsistent);
                }
            },
            None => {},
        }
        let mut b = self;
        b.codecs.push_aa_codec(codec);
        Ok(b)
    }

    /// Appends a bytes-to-bytes codec.
    pub fn push_bb_codec(self, codec: BBCodecType) -> (b: ArrayMetadataBuilder)
        ensures
            b.codecs.bb_codecs@ == self.codecs.bb_codecs@.push(codec),
            b.codecs.ab_codec == self.codecs.ab_codec,
            b.codecs.aa_codecs == self.codecs.aa_codecs,
            b.shape == self.shape,
            b.data_type == self.data_type,
            b.fill_value == self.fill_value,
            b.chunk_key_encoding == self.chunk_key_encoding,
            b.chunk_grid == self.chunk_grid,
            b.dimension_names == self.dimension_names,
            b.attributes == self.attributes,
            b.extensions == self.extensions,
            b.storage_transformers == self.storage_transformers,
    {
        let mut b = self;
        b.codecs.push_bb_codec(codec);
        b
    }

    /// Gives the attribute with the given key the value.
    pub fn set_attribute(self, key: &str, value: JsonValue) -> (b: ArrayMetadataBuilder)
        ensures
            crate::json::spec_find_key(b.attributes@, key@) < b.attributes@.len(),
            b.attributes@[crate::json::spec_find_key(b.attributes@, key@)].1 == value,
            b.shape == self.shape,
            b.data_type == self.data_type,
            b.codecs == self.codecs,
            b.fill_value == self.fill_value,
            b.chunk_key_encoding == self.chunk_key_encoding,
            b.chunk_grid == self.chunk_grid,
            b.dimension_names == self.dimension_names,
            b.extensions == self.extensions,
            b.storage_transformers == self.storage_transformers,
    {
        let mut b = self;
        let _ = crate::json::insert_value(&mut b.attributes, key, value);
        b
    }

    /// Sets the names of the axes. Fails where there are not as many
    /// names as the array has axes.
    pub fn dimension_names(self, names: Vec<Option<String>>) -> (r: Result<
        ArrayMetadataBuilder,
        crate::NdimError,
    >)
        ensures
            r is Ok <==> names@.len() == self.shape@.len(),
            r matches Ok(b) ==> b.dimension_names == Some(names) && b.shape == self.shape
                && b.data_type == self.data_type && b.codecs == self.codecs && b.fill_value
                == self.fill_value && b.chunk_key_encoding == self.chunk_key_encoding
                && b.chunk_grid == self.chunk_grid && b.attributes == self.attributes
                && b.extensions == self.extensions && b.storage_transformers
                == self.storage_transformers,
    {
        if names.len() != self.shape.len() {
            return Err(crate::NdimError::Inconsistent);
        }
        let mut b = self;
        b.dimension_names = Some(names);
        Ok(b)
    }

    /// Adds a member that this crate does not know.
    pub fn push_extension(self, key: String, extension: Extension) -> (b: ArrayMetadataBuilder)
        ensures
            b.extensions@ == self.extensions@.push((key, extension)),
            b.shape == self.shape,
            b.data_type == self.data_type,
            b.codecs == self.codecs,
            b.fill_value == self.fill_value,
            b.chunk_key_encoding == self.chunk_key_encoding,
            b.chunk_grid == self.chunk_grid,
            b.dimension_names == self.dimension_names,
            b.attributes == self.attributes,
            b.storage_transformers == self.storage_transformers,
    {
        let mut b = self;
        b.extensions.push((key, extension));
        b
    }

    /// The metadata. Where no chunk grid is set, the whole array is one
    /// chunk; where no encoding of chunk keys is set, it is the default
    /// one; where no fill value is set, it is that of the data type.
    pub fn build(self) -> (m: ArrayMetadata)
        ensures
            m.zarr_format == crate::ZARR_FORMAT,
            m.shape == self.shape,
            m.data_type == self.data_type,
            m.codecs == self.codecs,
            m.attributes == self.attributes,
            m.dimension_names == self.dimension_names,
            m.extensions == self.extensions,
            m.storage_transformers == self.storage_transformers,
            self.chunk_grid matches Some(g) ==> m.chunk_grid == g,
            self.chunk_grid.is_none() ==> m.chunk_grid.spec_chunk_shape() == self.shape@,
            self.chunk_key_encoding matches Some(e) ==> m.chunk_key_encoding == e,
            self.chunk_key_encoding.is_none() ==> m.chunk_key_encoding
                == ChunkKeyEncoding::Default(
                (crate::chunk_key_encoding::DefaultChunkKeyEncoding {
                    separator: crate::chunk_key_encoding::Separator::Slash,
                }),
            ),
            self.fill_value matches Some(v) ==> m.fill_value == v,
            self.fill_value.is_none() ==> spec_fill_bytes(m.data_type, m.fill_value) == Some(
                crate::data_type::zero_bytes(m.data_type.spec_nbytes()),
            ),
    {
        let chunk_grid = match self.chunk_grid {
            Some(g) => g,
            None => ChunkGridType::from_slice(self.shape.as_slice()),
        };
        let chunk_key_encoding = match self.chunk_key_encoding {
            Some(e) => e,
            None => ChunkKeyEncoding::default(),
        };
        let fill_value = match self.fill_value {
            Some(v) => v,
            None => self.data_type.default_fill_value(),
        };
        ArrayMetadata {
            zarr_format: crate::ZARR_FORMAT,
            shape: self.shape,
            data_type: self.data_type,
            chunk_grid,
            chunk_key_encoding,
            fill_value,
            storage_transformers: self.storage_transformers,
            codecs: self.codecs,
            attributes: self.attributes,
            dimension_names: self.dimension_names,
            extensions: self.extensions,
        }
    }
}

/// An array: a node of the hierarchy that holds cells in chunks.
#[derive(Debug)]
pub struct Array {
    key: NodeKey,
    meta_key: NodeKey,
    metadata: ArrayMetadata,
    fill_value: Vec<u8>,
}

impl crate::Ndim for Array {
    closed spec fn spec_ndim(&self) -> nat {
        self.metadata.shape@.len()
    }

    fn ndim(&self) -> (n: usize) {
        self.metadata.shape.len()
    }
}

impl Array {
    pub closed spec fn spec_key(&self) -> Seq<Seq<char>> {
        self.key@
    }

    pub closed spec fn spec_meta_key(&self) -> Seq<Seq<char>> {
        self.meta_key@
    }

    /// The metadata of the array.
    pub closed spec fn meta(&self) -> ArrayMetadata {
        self.metadata
    }

    /// The bytes of the fill value.
    pub closed spec fn fill(&self) -> Seq<u8> {
        self.fill_value@
    }

    /// The metadata is valid and the fill value is that of the metadata.
    pub closed spec fn wf(&self) -> bool {
        &&& self.metadata.valid()
        &&& self.meta_key@ == self.key@.push(crate::store::metadata_name_chars())
        &&& spec_fill_bytes(self.metadata.data_type, self.metadata.fill_value) == Some(
            self.fill_value@,
        )
        &&& self.fill_value@.len() == self.metadata.data_type.spec_nbytes()
    }

    /// Shape of the array.
    pub open spec fn spec_shape(&self) -> Seq<u64> {
        self.meta().shape@
    }

    /// Shape of the chunks.
    pub open spec fn spec_chunk_shape(&self) -> Seq<u64> {
        self.meta().chunk_grid.spec_chunk_shape()
    }

    /// What the codecs have to know of a chunk.
    pub open spec fn spec_chunk_repr(&self) -> ReprModel {
        ReprModel {
            shape: self.spec_chunk_shape(),
            data_type: self.meta().data_type,
            fill: self.fill(),
        }
    }

    /// The key under which the chunk with the given index is stored.
    pub open spec fn spec_chunk_key(&self, idx: Seq<u64>) -> Seq<Seq<char>> {
        self.spec_key() + self.meta().chunk_key_encoding.spec_components(idx)
    }

    /// The chunk with the given index, as the store holds it: a chunk of
    /// fill values where the store holds no such key.
    pub open spec fn stored_chunk(
        &self,
        contents: Map<Seq<Seq<char>>, Seq<u8>>,
        idx: Seq<u64>,
    ) -> Result<ArrayModel, ZarrError> {
        if contents.contains_key(self.spec_chunk_key(idx)) {
            chain_decode(
                self.meta().codecs,
                contents[self.spec_chunk_key(idx)],
                self.spec_chunk_repr(),
            )
        } else {
            Ok(
                ArrayModel::filled(
                    self.spec_chunk_shape(),
                    self.meta().data_type,
                    self.fill(),
                ),
            )
        }
    }

    /// What follows from the validity of the array.
    pub proof fn lemma_wf(&self)
        requires
            self.wf(),
        ensures
            self.meta().valid(),
            self.spec_chunk_shape().len() == self.spec_shape().len(),
            all_positive(self.spec_chunk_shape()),
            chain_wf(self.meta().codecs, self.spec_shape().len()),
            self.fill().len() == self.meta().data_type.spec_nbytes(),
            self.fill().len() > 0,
            product(self.spec_chunk_shape()) * self.fill().len() <= usize::MAX,
            self.spec_meta_key() == self.spec_key().push(crate::store::metadata_name_chars()),
    {
    }

    /// The array with the given key and metadata, where the metadata is
    /// valid. Nothing is written.
    pub fn new(key: NodeKey, metadata: ArrayMetadata) -> (r: Result<Array, ZarrError>)
        ensures
            metadata.valid() <==> r is Ok,
            r matches Ok(a) ==> a.wf() && a.spec_key() == key@ && a.meta() == metadata,
            r matches Err(e) ==> e == ZarrError::InvalidMetadata,
    {
        if metadata.validate().is_err() {
            return Err(ZarrError::InvalidMetadata);
        }
        let fill_value = match metadata.get_effective_fill_value() {
            Some(f) => f,
            None => {
                return Err(ZarrError::InvalidMetadata);
            },
        };
        let mut meta_key = key.clone();
        let _ = meta_key.with_metadata();
        Ok(Array { key, meta_key, metadata, fill_value })
    }

    pub fn key(&self) -> (k: &NodeKey)
        ensures
            k@ == self.spec_key(),
    {
        &self.key
    }

    pub fn meta_key(&self) -> (k: &NodeKey)
        ensures
            k@ == self.spec_meta_key(),
    {
        &self.meta_key
    }

    pub fn metadata(&self) -> (m: &ArrayMetadata)
        ensures
            *m == self.meta(),
    {
        &self.metadata
    }

    /// The bytes of the fill value.
    pub fn fill_value(&self) -> (f: &[u8])
        ensures
            f@ == self.fill(),
    {
        self.fill_value.as_slice()
    }

    /// What the codecs have to know of a chunk.
    pub fn chunk_repr(&self) -> (r: ArrayRepr)
        requires
            self.wf(),
        ensures
            r@ == self.spec_chunk_repr(),
            r.wf(),
            r.fits(),
    {
        let shape = self.metadata.chunk_grid.chunk_shape_unchecked(self.metadata.shape.as_slice());
        ArrayRepr::new(shape.as_slice(), self.metadata.data_type, self.fill_value.clone())
    }

    /// A chunk of fill values.
    pub fn empty_chunk(&self) -> (a: NDArr)
        requires
            self.wf(),
        ensures
            a.wf(),
            a@ == ArrayModel::filled(self.spec_chunk_shape(), self.meta().data_type, self.fill()),
    {
        let repr = self.chunk_repr();
        match repr.empty_array() {
            Some(a) => a,
            None => {
                assert(false);
                NDArr {
                    shape: Vec::new(),
                    data_type: self.metadata.data_type,
                    elems: crate::ndarr::ElemBuf::new(1),
                }
            },
        }
    }

    /// The key under which the chunk with the given index is stored.
    pub fn chunk_key(&self, idx: &[u64]) -> (k: NodeKey)
        ensures
            k@ == self.spec_chunk_key(idx@),
    {
        self.metadata.chunk_key_encoding.chunk_key(&self.key, idx)
    }

    /// Reads a chunk. A chunk that the store does not hold is a chunk of
    /// fill values. Fails with `DimensionMismatch` where the index has
    /// another number of axes than the array, with `OutOfBounds` where the
    /// chunk holds no cell of the array, with `StoreIo` where the store
    /// fails, and with the error of the codecs where they cannot decode
    /// what the store holds.
    pub fn read_chunk<S: ReadableStore>(&self, store: &S, chunk_idx: &[u64]) -> (r: Result<
        NDArr,
        ZarrError,
    >)
        requires
            self.wf(),
            store.store_wf(),
        ensures
            chunk_idx@.len() != self.spec_shape().len() ==> r == Err::<NDArr, ZarrError>(
                ZarrError::DimensionMismatch,
            ),
            chunk_idx@.len() == self.spec_shape().len() && !self.meta().spec_chunk_should_exist(
                chunk_idx@,
            ) ==> r == Err::<NDArr, ZarrError>(ZarrError::OutOfBounds),
            r matches Ok(a) ==> a.wf() && a.shape@ == self.spec_chunk_shape() && a.data_type
                == self.meta().data_type && self.stored_chunk(store.contents(), chunk_idx@)
                == Ok::<ArrayModel, ZarrError>(a@),
            chunk_idx@.len() == self.spec_shape().len() && self.meta().spec_chunk_should_exist(
                chunk_idx@,
            ) ==> (r matches Err(e) ==> e == ZarrError::StoreIo || self.stored_chunk(
                store.contents(),
                chunk_idx@,
            ) == Err::<ArrayModel, ZarrError>(e)),
    {
        if chunk_idx.len() != self.metadata.shape.len() {
            return Err(ZarrError::DimensionMismatch);
        }
        if !self.metadata.chunk_should_exist(chunk_idx) {
            return Err(ZarrError::OutOfBounds);
        }
        self.read_chunk_unchecked(store, chunk_idx)
    }

    /// Reads a chunk without looking at its index.
    pub fn read_chunk_unchecked<S: ReadableStore>(&self, store: &S, chunk_idx: &[u64]) -> (r:
        Result<NDArr, ZarrError>)
        requires
            self.wf(),
            store.store_wf(),
        ensures
            r matches Ok(a) ==> a.wf() && a.shape@ == self.spec_chunk_shape() && a.data_type
                == self.meta().data_type && self.stored_chunk(store.contents(), chunk_idx@)
                == Ok::<ArrayModel, ZarrError>(a@),
            r matches Err(e) ==> e == ZarrError::StoreIo || self.stored_chunk(
                store.contents(),
                chunk_idx@,
            ) == Err::<ArrayModel, ZarrError>(e),
    {
        let key = self.chunk_key(chunk_idx);
        match store.get(&key) {
            Err(e) => Err(e),
            Ok(None) => Ok(self.empty_chunk()),
            Ok(Some(bytes)) => {
                let repr = self.chunk_repr();
                self.metadata.codecs.decode(bytes, &repr)
            },
        }
    }

    /// What the store holds for the cell `cell` of the array: the cell's
    /// value in the chunk that holds it, or why that chunk cannot be read.
    pub open spec fn spec_cell(
        &self,
        contents: Map<Seq<Seq<char>>, Seq<u8>>,
        cell: Seq<u64>,
    ) -> Result<Seq<u8>, ZarrError> {
        match self.stored_chunk(contents, voxel_chunk_index(cell, self.spec_chunk_shape())) {
            Ok(m) => Ok(m.at(voxel_chunk_offset(cell, self.spec_chunk_shape()))),
            Err(e) => Err(e),
        }
    }

    /// The chunks that hold cells of the region `r`, which lies within the
    /// array.
    pub open spec fn touches(&self, r: Seq<ArraySlice>, idx: Seq<u64>) -> bool {
        exists|local: Seq<u64>|
            in_bounds(local, span_counts(region_spans(r, self.spec_chunk_shape())))
                && idx == #[trigger] span_chunk_idx(
                region_spans(r, self.spec_chunk_shape()),
                local,
            )
    }

    /// Whether every cell of `out` holds what the store holds for the
    /// cell of the array that it stands for, when `out` stands for the
    /// part of the region that lies within the array.
    pub open spec fn region_read(
        &self,
        contents: Map<Seq<Seq<char>>, Seq<u8>>,
        region: Seq<ArraySlice>,
        out: NDArr,
    ) -> bool {
        forall|i: Seq<u64>|
            in_bounds(i, out.shape@) ==> self.spec_cell(
                contents,
                shift(i, clipped(region, self.spec_shape())),
            ) == Ok::<Seq<u8>, ZarrError>(#[trigger] out.at(i))
    }

    /// Whether the store `after` holds, for every cell of the part of
    /// `array` that lies within this array when its first cell is put at
    /// `offset`, the cell of `array`, and for every other cell what the
    /// store `before` holds.
    pub open spec fn region_written(
        &self,
        before: Map<Seq<Seq<char>>, Seq<u8>>,
        after: Map<Seq<Seq<char>>, Seq<u8>>,
        offset: Seq<u64>,
        array: NDArr,
    ) -> bool {
        forall|x: Seq<u64>|
            x.len() == self.spec_shape().len() ==> #[trigger] self.spec_cell(after, x)
                == if in_region(x, self.spec_write_region(offset, array.shape@)) {
                Ok::<Seq<u8>, ZarrError>(
                    array.at(unshift(x, self.spec_write_region(offset, array.shape@))),
                )
            } else {
                self.spec_cell(before, x)
            }
    }

    /// What is written to an array that holds no chunk can be read back:
    /// reading the region that was written gives the cells of the array
    /// that was written, as far as it lies within this array, and every
    /// cell outside that region holds the fill value.
    pub proof fn lemma_region_roundtrip(
        &self,
        before: Map<Seq<Seq<char>>, Seq<u8>>,
        after: Map<Seq<Seq<char>>, Seq<u8>>,
        offset: Seq<u64>,
        array: NDArr,
        out: NDArr,
    )
        requires
            self.wf(),
            offset.len() == self.spec_shape().len(),
            array.shape@.len() == self.spec_shape().len(),
            clip_nonempty(zip_offset_shape(offset, array.shape@), self.spec_shape()),
            forall|idx: Seq<u64>| !before.contains_key(#[trigger] self.spec_chunk_key(idx)),
            self.region_written(before, after, offset, array),
            out.shape@ == shapes_of(self.spec_write_region(offset, array.shape@)),
            self.region_read(after, zip_offset_shape(offset, array.shape@), out),
        ensures
            forall|i: Seq<u64>| in_bounds(i, out.shape@) ==> #[trigger] out.at(i) == array.at(i),
            region_within(zip_offset_shape(offset, array.shape@), self.spec_shape())
                ==> out.shape@ == array.shape@,
            forall|x: Seq<u64>|
                x.len() == self.spec_shape().len() && !in_region(
                    x,
                    self.spec_write_region(offset, array.shape@),
                ) ==> #[trigger] self.spec_cell(after, x) == Ok::<Seq<u8>, ZarrError>(self.fill()),
    {
        self.lemma_wf();
        let full = zip_offset_shape(offset, array.shape@);
        let reg = self.spec_write_region(offset, array.shape@);
        let cs = self.spec_chunk_shape();
        lemma_clipped(full, self.spec_shape());
        assert forall|i: Seq<u64>| in_bounds(i, out.shape@) implies #[trigger] out.at(i)
            == array.at(i) by {
            let x = shift(i, reg);
            crate::ndarr::lemma_shift(i, reg, self.spec_shape());
        }
        if region_within(full, self.spec_shape()) {
            assert forall|d: int| 0 <= d < full.len() implies reg[d] == full[d] by {
            }
        }
        assert forall|x: Seq<u64>|
            x.len() == self.spec_shape().len() && !in_region(x, reg) implies #[trigger] self.spec_cell(
            after,
            x,
        ) == Ok::<Seq<u8>, ZarrError>(self.fill()) by {
            let idx = voxel_chunk_index(x, cs);
            let off = voxel_chunk_offset(x, cs);
            crate::chunk_grid::lemma_voxel_offset(x, cs);
            crate::chunk_arr::lemma_ravel_bound(off, cs);
            ArrayModel::lemma_from_elems(cs, self.meta().data_type, |k: int| self.fill());
        }
    }

    /// Reads the part of the region that lies within the array; nothing
    /// where no part does. Every cell of the result holds what the store
    /// holds for the cell of the array that it stands for. The cells are
    /// read chunk by chunk, and the first chunk that cannot be read ends
    /// the call with its error.
    ///
    /// The result must fit in memory. An array without axes has no chunks
    /// to walk: its one cell is given as the fill value.
    pub fn read_region<S: ReadableStore>(&self, store: &S, region: &ArrayRegion) -> (r: Result<
        Option<NDArr>,
        ZarrError,
    >)
        requires
            self.wf(),
            store.store_wf(),
            region@.len() == self.spec_shape().len() ==> product(
                shapes_of(clipped(region@, self.spec_shape())),
            ) * self.fill().len() <= usize::MAX,
        ensures
            region@.len() != self.spec_shape().len() ==> r == Err::<Option<NDArr>, ZarrError>(
                ZarrError::DimensionMismatch,
            ),
            region@.len() == self.spec_shape().len() && !clip_nonempty(region@, self.spec_shape())
                ==> r matches Ok(None),
            region@.len() == self.spec_shape().len() && clip_nonempty(region@, self.spec_shape())
                ==> !(r matches Ok(None)),
            r matches Ok(Some(a)) ==> {
                &&& a.wf()
                &&& a.shape@ == shapes_of(clipped(region@, self.spec_shape()))
                &&& a.data_type == self.meta().data_type
                &&& self.spec_shape().len() > 0 ==> self.region_read(store.contents(), region@, a)
                &&& self.spec_shape().len() == 0 ==> a@.all_equal_to(self.fill())
            },
            r matches Err(e) ==> {
                ||| e == ZarrError::DimensionMismatch && region@.len() != self.spec_shape().len()
                ||| e == ZarrError::StoreIo
                ||| exists|idx: Seq<u64>|
                    self.touches(clipped(region@, self.spec_shape()), idx) && self.stored_chunk(
                        store.contents(),
                        idx,
                    ) == Err::<ArrayModel, ZarrError>(e)
            },
    {
        proof {
            self.lemma_wf();
        }
        if region.ndim() != self.metadata.shape.len() {
            return Err(ZarrError::DimensionMismatch);
        }
        let clip = match region.limit_extent(self.metadata.shape.as_slice()) {
            None => {
                return Ok(None);
            },
            Some(c) => c,
        };
        let ghost rr = clip@;
        let ghost cs = self.spec_chunk_shape();
        let ghost spans = region_spans(rr, cs);
        let ghost counts = span_counts(spans);
        proof {
            lemma_clipped(region@, self.spec_shape());
            lemma_region_spans(rr, cs);
            lemma_counts_le_lengths(spans);
            assert(product(counts) * 1 <= product(shapes_of(rr)) * self.fill().len())
                by (nonlinear_arith)
                requires
                    product(counts) <= product(shapes_of(rr)),
                    self.fill().len() >= 1,
            ;
        }
        let shape = clip.shape();
        let mut out = match NDArr::from_elem(
            shape.as_slice(),
            self.metadata.data_type,
            self.fill_value.as_slice(),
        ) {
            Some(a) => a,
            None => {
                return Err(ZarrError::OutOfBounds);
            },
        };
        let mut it = self.metadata.chunk_grid.chunks_in_region_unchecked(&clip);
        let n = it.remaining();
        let mut t: usize = 0;
        proof {
            out.lemma_view();
            assert forall|k: int| 0 <= k < product(out@.shape) implies #[trigger] out@.elem(k)
                == self.fill() by {
                assert(out.elems@[k] == self.fill());
            }
        }
        while t < n
            invariant
                self.wf(),
                store.store_wf(),
                rr == clip@,
                rr == clipped(region@, self.spec_shape()),
                rr.len() == cs.len(),
                cs == self.spec_chunk_shape(),
                all_positive(cs),
                ends_fit(rr),
                spans == region_spans(rr, cs),
                counts == span_counts(spans),
                spans_ok(spans),
                span_lengths(spans) == shapes_of(rr),
                it.wf(),
                it.spans() == spans,
                it.position() == t,
                n == walk_len(counts),
                t <= n,
                out.wf(),
                out.shape@ == shapes_of(rr),
                out.data_type == self.meta().data_type,
                region@.len() == self.spec_shape().len(),
                clip_nonempty(region@, self.spec_shape()),
                self.spec_shape().len() == 0 ==> out@.all_equal_to(self.fill()),
                forall|i: Seq<u64>|
                    in_bounds(i, out.shape@) && ravel(span_local(spans, i), counts) < t
                        ==> self.spec_cell(store.contents(), shift(i, rr)) == Ok::<
                        Seq<u8>,
                        ZarrError,
                    >(#[trigger] out.at(i)),
            decreases n - t,
        {
            let ghost local = unravel(t as nat, counts);
            let ghost before = out;
            let pc = match it.next() {
                Some(pc) => pc,
                None => {
                    return Err(ZarrError::OutOfBounds);
                },
            };
            proof {
                crate::chunk_arr::lemma_ravel_unravel(t as nat, counts);
                lemma_share_regions(spans, local);
            }
            let chunk = match self.read_chunk_unchecked(store, pc.chunk_idx.as_slice()) {
                Ok(c) => c,
                Err(e) => {
                    proof {
                        if e != ZarrError::StoreIo {
                            assert(self.touches(rr, span_chunk_idx(spans, local)));
                        }
                    }
                    return Err(e);
                },
            };
            let sub = chunk.slice(&pc.chunk_region);
            out.assign(&pc.out_region, &sub);
            proof {
                chunk.lemma_view();
                let cr = pc.chunk_region@;
                let or = pc.out_region@;
                assert forall|i: Seq<u64>|
                    in_bounds(i, out.shape@) && ravel(span_local(spans, i), counts) < t
                        + 1 implies self.spec_cell(store.contents(), shift(i, rr)) == Ok::<
                    Seq<u8>,
                    ZarrError,
                >(#[trigger] out.at(i)) by {
                    lemma_span_cell(spans, i, local);
                    lemma_span_local(spans, i);
                    lemma_region_cells(rr, cs, i);
                    if in_region(i, or) {
                        let u = unshift(i, or);
                        crate::ndarr::lemma_unshift(i, or);
                        crate::ndarr::lemma_shift(u, cr, cs);
                    } else {
                        crate::chunk_arr::lemma_unravel_ravel(span_local(spans, i), counts);
                    }
                }
            }
            t += 1;
        }
        proof {
            if self.spec_shape().len() > 0 {
                assert forall|i: Seq<u64>| in_bounds(i, out.shape@) implies self.spec_cell(
                    store.contents(),
                    shift(i, rr),
                ) == Ok::<Seq<u8>, ZarrError>(#[trigger] out.at(i)) by {
                    lemma_span_local(spans, i);
                    crate::chunk_arr::lemma_ravel_bound(span_local(spans, i), counts);
                }
            }
        }
        Ok(Some(out))
    }

    /// Chunks with different indices lie under different keys.
    pub proof fn lemma_chunk_keys_differ(&self, i1: Seq<u64>, i2: Seq<u64>)
        requires
            i1.len() == i2.len(),
            self.spec_chunk_key(i1) == self.spec_chunk_key(i2),
        ensures
            i1 == i2,
    {
        let k = self.spec_key();
        let c1 = self.meta().chunk_key_encoding.spec_components(i1);
        let c2 = self.meta().chunk_key_encoding.spec_components(i2);
        assert(c1 =~= (k + c1).subrange(k.len() as int, (k + c1).len() as int));
        assert(c2 =~= (k + c2).subrange(k.len() as int, (k + c2).len() as int));
        crate::chunk_key_encoding::lemma_components_injective(
            self.meta().chunk_key_encoding,
            i1,
            i2,
        );
    }

    /// Index of the chunk that comes `u`-th when the chunks that hold
    /// cells of the region `r` are walked.
    pub open spec fn spec_touched(&self, r: Seq<ArraySlice>, u: nat) -> Seq<u64> {
        span_chunk_idx(
            region_spans(r, self.spec_chunk_shape()),
            unravel(u, span_counts(region_spans(r, self.spec_chunk_shape()))),
        )
    }

    /// Whether `k` is the key of a chunk that holds cells of the region
    /// `r`.
    pub open spec fn touched_key(&self, r: Seq<ArraySlice>, k: Seq<Seq<char>>) -> bool {
        exists|local: Seq<u64>|
            in_bounds(local, span_counts(region_spans(r, self.spec_chunk_shape()))) && k
                == self.spec_chunk_key(
                #[trigger] span_chunk_idx(region_spans(r, self.spec_chunk_shape()), local),
            )
    }

    /// Whether `k` is the key of one of the first `t` chunks of the walk.
    pub open spec fn written(&self, r: Seq<ArraySlice>, t: nat, k: Seq<Seq<char>>) -> bool {
        exists|u: nat| u < t && k == self.spec_chunk_key(#[trigger] self.spec_touched(r, u))
    }

    /// The region that a write at `offset` of an array of the given shape
    /// changes: what lies within this array.
    pub open spec fn spec_write_region(&self, offset: Seq<u64>, shape: Seq<u64>) -> Seq<
        ArraySlice,
    > {
        clipped(zip_offset_shape(offset, shape), self.spec_shape())
    }

    /// Whether the `u`-th chunk of the walk holds, in the store `cur`, the
    /// cells of `within` where the region covers it, and elsewhere what it
    /// held in the store `before`.
    pub open spec fn patched(
        &self,
        cur: Map<Seq<Seq<char>>, Seq<u8>>,
        before: Map<Seq<Seq<char>>, Seq<u8>>,
        within: NDArr,
        r: Seq<ArraySlice>,
        u: nat,
    ) -> bool {
        let spans = region_spans(r, self.spec_chunk_shape());
        let local = unravel(u, span_counts(spans));
        let idx = span_chunk_idx(spans, local);
        &&& self.stored_chunk(cur, idx) is Ok
        &&& forall|off: Seq<u64>|
            in_bounds(off, self.spec_chunk_shape()) ==> #[trigger] patch_ok(
                self.stored_chunk(cur, idx)->Ok_0,
                self.stored_chunk(before, idx),
                within,
                span_chunk_region(spans, local),
                span_out_region(spans, local),
                off,
            )
    }

    /// The chunks of a walk lie under keys of their own.
    pub proof fn lemma_walk_keys(&self, r: Seq<ArraySlice>, u1: nat, u2: nat)
        requires
            self.wf(),
            r.len() == self.spec_chunk_shape().len(),
            ends_fit(r),
            u1 < product(span_counts(region_spans(r, self.spec_chunk_shape()))),
            u2 < product(span_counts(region_spans(r, self.spec_chunk_shape()))),
            self.spec_chunk_key(self.spec_touched(r, u1)) == self.spec_chunk_key(
                self.spec_touched(r, u2),
            ),
        ensures
            u1 == u2,
    {
        self.lemma_wf();
        let spans = region_spans(r, self.spec_chunk_shape());
        let counts = span_counts(spans);
        lemma_region_spans(r, self.spec_chunk_shape());
        crate::chunk_arr::lemma_ravel_unravel(u1, counts);
        crate::chunk_arr::lemma_ravel_unravel(u2, counts);
        self.lemma_chunk_keys_differ(self.spec_touched(r, u1), self.spec_touched(r, u2));
        crate::chunk_arr::lemma_chunk_idx_injective(
            spans,
            unravel(u1, counts),
            unravel(u2, counts),
        );
    }

    /// The keys of the chunks of a walk are keys of chunks that hold
    /// cells of the region.
    pub proof fn lemma_written(&self, r: Seq<ArraySlice>, t: nat, k: Seq<Seq<char>>)
        requires
            t <= walk_len(span_counts(region_spans(r, self.spec_chunk_shape()))),
            self.written(r, t, k),
        ensures
            self.touched_key(r, k),
    {
        let spans = region_spans(r, self.spec_chunk_shape());
        let counts = span_counts(spans);
        let u = choose|u: nat| u < t && k == self.spec_chunk_key(#[trigger] self.spec_touched(r, u));
        crate::chunk_arr::lemma_ravel_unravel(u, counts);
        let local = unravel(u, counts);
    }

    /// Whether the store `after` is the store `before` with the first `t`
    /// chunks of the walk over the region written from `array`: these
    /// chunks hold the cells of `array` where the region covers them, and
    /// every key but those of the first `t + 1` chunks of the walk is as it
    /// was. The chunk behind them is the one that could not be read or
    /// written.
    pub open spec fn written_up_to(
        &self,
        before: Map<Seq<Seq<char>>, Seq<u8>>,
        after: Map<Seq<Seq<char>>, Seq<u8>>,
        array: NDArr,
        reg: Seq<ArraySlice>,
        t: nat,
    ) -> bool {
        &&& forall|u: nat| u < t ==> #[trigger] self.patched(after, before, array, reg, u)
        &&& forall|k: Seq<Seq<char>>|
            !self.written(reg, t + 1, k) ==> #[trigger] same_at(after, before, k)
    }

    /// A chunk that holds the cells of a part of an array holds the cells
    /// of the array, where the part holds the same cells as the array.
    pub proof fn lemma_patched_source(
        &self,
        cur: Map<Seq<Seq<char>>, Seq<u8>>,
        before: Map<Seq<Seq<char>>, Seq<u8>>,
        within: NDArr,
        array: NDArr,
        r: Seq<ArraySlice>,
        u: nat,
    )
        requires
            self.wf(),
            r.len() == self.spec_chunk_shape().len(),
            ends_fit(r),
            within.shape@ == shapes_of(r),
            u < product(span_counts(region_spans(r, self.spec_chunk_shape()))),
            forall|i: Seq<u64>| in_bounds(i, within.shape@) ==> #[trigger] within.at(i) == array.at(i),
            self.patched(cur, before, within, r, u),
        ensures
            self.patched(cur, before, array, r, u),
    {
        self.lemma_wf();
        let cs = self.spec_chunk_shape();
        let spans = region_spans(r, cs);
        let counts = span_counts(spans);
        let local = unravel(u, counts);
        let idx = span_chunk_idx(spans, local);
        let cr = span_chunk_region(spans, local);
        let or = span_out_region(spans, local);
        lemma_region_spans(r, cs);
        crate::chunk_arr::lemma_ravel_unravel(u, counts);
        lemma_share_regions(spans, local);
        let m = self.stored_chunk(cur, idx)->Ok_0;
        assert forall|off: Seq<u64>| in_bounds(off, cs) implies #[trigger] patch_ok(
            m,
            self.stored_chunk(before, idx),
            array,
            cr,
            or,
            off,
        ) by {
            assert(patch_ok(m, self.stored_chunk(before, idx), within, cr, or, off));
            if in_region(off, cr) {
                crate::ndarr::lemma_unshift(off, cr);
                crate::ndarr::lemma_shift(unshift(off, cr), or, span_lengths(spans));
            }
        }
    }

    /// Writes the part of `array` that lies within this array when the
    /// first cell of `array` is put at `offset`. Afterwards the store holds
    /// for every cell of that part the cell of `array`, and for every
    /// other cell what it held before. Only the chunks that hold cells of
    /// that part are read and written, in the order of the walk over them;
    /// the first that cannot be read or written ends the call with its
    /// error, and the chunks before it stay written. `array` must hold
    /// elements of this array's data type.
    ///
    /// An array without axes has no chunks to walk: nothing is written.
    pub fn write_region<S: WriteableStore>(&self, store: &mut S, offset: &[u64], array: NDArr) -> (r:
        Result<(), ZarrError>)
        requires
            self.wf(),
            array.wf(),
            array.data_type == self.meta().data_type,
            old(store).store_wf(),
        ensures
            final(store).store_wf(),
            (offset@.len() != self.spec_shape().len() || array.shape@.len()
                != self.spec_shape().len()) ==> r == Err::<(), ZarrError>(
                ZarrError::DimensionMismatch,
            ) && final(store).contents() == old(store).contents(),
            offset@.len() == self.spec_shape().len() && array.shape@.len()
                == self.spec_shape().len() ==> {
                let reg = self.spec_write_region(offset@, array.shape@);
                &&& r is Err ==> exists|t: nat|
                    t < walk_len(span_counts(region_spans(reg, self.spec_chunk_shape())))
                        && #[trigger] self.written_up_to(
                        old(store).contents(),
                        final(store).contents(),
                        array,
                        reg,
                        t,
                    )
                &&& forall|k: Seq<Seq<char>>|
                    !self.touched_key(reg, k) ==> #[trigger] same_at(final(store).contents(), old(store).contents(), k)
                &&& (self.spec_shape().len() == 0 || !clip_nonempty(
                    zip_offset_shape(offset@, array.shape@),
                    self.spec_shape(),
                )) ==> r is Ok && final(store).contents() == old(store).contents()
                &&& r is Ok && self.spec_shape().len() > 0 && clip_nonempty(
                    zip_offset_shape(offset@, array.shape@),
                    self.spec_shape(),
                ) ==> self.region_written(old(store).contents(), final(store).contents(), offset@, array)
            },
            r matches Err(e) ==> {
                ||| e == ZarrError::DimensionMismatch && (offset@.len() != self.spec_shape().len()
                    || array.shape@.len() != self.spec_shape().len())
                ||| e == ZarrError::StoreIo
                ||| exists|idx: Seq<u64>|
                    self.touches(self.spec_write_region(offset@, array.shape@), idx)
                        && self.stored_chunk(old(store).contents(), idx) == Err::<
                        ArrayModel,
                        ZarrError,
                    >(e)
                ||| crate::codecs::chain_encodable(
                    self.meta().codecs,
                    self.spec_chunk_shape(),
                    self.meta().data_type,
                ) == Err::<(), ZarrError>(e)
            },
    {
        proof {
            self.lemma_wf();
        }
        let ndim = self.metadata.shape.len();
        if offset.len() != ndim || array.shape.len() != ndim {
            return Err(ZarrError::DimensionMismatch);
        }
        let ghost before = store.contents();
        let nbytes = array.elems.bytes.len();
        let full = ArrayRegion::from_offset_shape(offset, array.shape.as_slice());
        let clip = match full.limit_extent(self.metadata.shape.as_slice()) {
            None => {
                return Ok(());
            },
            Some(c) => c,
        };
        let ghost rr = clip@;
        let ghost cs = self.spec_chunk_shape();
        let ghost spans = region_spans(rr, cs);
        let ghost counts = span_counts(spans);
        let origin = clip.at_origin();
        proof {
            lemma_clipped(full@, self.spec_shape());
            lemma_region_spans(rr, cs);
            lemma_counts_le_lengths(spans);
            assert forall|d: int| 0 <= d < rr.len() implies (#[trigger] origin@[d]).spec_end()
                <= array.shape@[d] && shapes_of(rr)[d] <= array.shape@[d] by {
            }
            crate::ndarr::lemma_product_le(shapes_of(rr), array.shape@);
            array.lemma_view();
            assert(product(array.shape@) <= usize::MAX) by (nonlinear_arith)
                requires
                    product(array.shape@) * array.elems.size == nbytes,
                    nbytes <= usize::MAX,
                    array.elems.size >= 1,
            ;
        }
        let within = array.slice(&origin);
        proof {
            assert forall|i: Seq<u64>| in_bounds(i, within.shape@) implies #[trigger] within.at(i)
                == array.at(i) by {
                assert(shift(i, origin@) =~= i);
            }
            assert(shapes_of(origin@) =~= shapes_of(rr));
        }
        let chunk_shape = self.metadata.chunk_grid.chunk_shape_unchecked(offset);
        let mut it = self.metadata.chunk_grid.chunks_in_region_unchecked(&clip);
        let n = it.remaining();
        let mut t: usize = 0;
        while t < n
            invariant
                self.wf(),
                store.store_wf(),
                array.wf(),
                before == old(store).contents(),
                within.wf(),
                within.shape@ == shapes_of(rr),
                within.data_type == self.meta().data_type,
                forall|i: Seq<u64>|
                    in_bounds(i, within.shape@) ==> #[trigger] within.at(i) == array.at(i),
                chunk_shape@ == cs,
                rr == clip@,
                rr == self.spec_write_region(offset@, array.shape@),
                rr.len() == cs.len(),
                rr.len() == self.spec_shape().len(),
                offset@.len() == self.spec_shape().len(),
                array.shape@.len() == self.spec_shape().len(),
                array.data_type == self.meta().data_type,
                clip_nonempty(zip_offset_shape(offset@, array.shape@), self.spec_shape()),
                cs == self.spec_chunk_shape(),
                all_positive(cs),
                ends_fit(rr),
                spans == region_spans(rr, cs),
                counts == span_counts(spans),
                spans_ok(spans),
                span_lengths(spans) == shapes_of(rr),
                it.wf(),
                it.spans() == spans,
                it.position() == t,
                n == walk_len(counts),
                t <= n,
                forall|k: Seq<Seq<char>>|
                    !self.written(rr, t as nat, k) ==> #[trigger] same_at(
                        store.contents(),
                        before,
                        k,
                    ),
                forall|u: nat|
                    u < t ==> #[trigger] self.patched(store.contents(), before, within, rr, u),
            decreases n - t,
        {
            let ghost local = unravel(t as nat, counts);
            let ghost cur = store.contents();
            let pc = match it.next() {
                Some(pc) => pc,
                None => {
                    return Err(ZarrError::OutOfBounds);
                },
            };
            let ghost idx = pc.chunk_idx@;
            let ghost key = self.spec_chunk_key(idx);
            let ghost cr = pc.chunk_region@;
            let ghost or = pc.out_region@;
            proof {
                crate::chunk_arr::lemma_ravel_unravel(t as nat, counts);
                lemma_share_regions(spans, local);
                if self.written(rr, t as nat, key) {
                    let u = choose|u: nat|
                        u < t && key == self.spec_chunk_key(#[trigger] self.spec_touched(rr, u));
                    self.lemma_walk_keys(rr, u, t as nat);
                }
                assert(same_at(cur, before, key));
                assert forall|k: Seq<Seq<char>>| !self.touched_key(rr, k) implies #[trigger] same_at(
                    cur,
                    before,
                    k,
                ) by {
                    if self.written(rr, t as nat, k) {
                        self.lemma_written(rr, t as nat, k);
                    }
                }
            }
            let sub = within.slice(&pc.out_region);
            let chunk = if pc.chunk_region.is_whole(chunk_shape.as_slice()) {
                proof {
                    sub.lemma_view();
                    assert(sub.shape@ =~= cs);
                    assert forall|off: Seq<u64>| in_bounds(off, cs) implies #[trigger] patch_ok(
                        sub@,
                        self.stored_chunk(before, idx),
                        within,
                        cr,
                        or,
                        off,
                    ) by {
                        assert(unshift(off, cr) =~= off);
                        assert(sub.at(off) == within.at(shift(off, or)));
                    }
                }
                sub
            } else {
                let mut c = match self.read_chunk_unchecked(store, pc.chunk_idx.as_slice()) {
                    Ok(c) => c,
                    Err(e) => {
                        proof {
                            assert forall|u: nat| u < t implies #[trigger] self.patched(
                                cur,
                                before,
                                array,
                                rr,
                                u,
                            ) by {
                                self.lemma_patched_source(cur, before, within, array, rr, u);
                            }
                            assert forall|k: Seq<Seq<char>>|
                                !self.written(rr, (t + 1) as nat, k) implies #[trigger] same_at(
                                cur,
                                before,
                                k,
                            ) by {
                                if self.written(rr, t as nat, k) {
                                    let u = choose|u: nat|
                                        u < t && k == self.spec_chunk_key(
                                            #[trigger] self.spec_touched(rr, u),
                                        );
                                    assert(u < t + 1);
                                }
                            }
                            assert(self.written_up_to(before, cur, array, rr, t as nat));
                            if e != ZarrError::StoreIo {
                                assert(self.touches(rr, span_chunk_idx(spans, local)));
                            }
                        }
                        return Err(e);
                    },
                };
                let ghost c0 = c;
                c.assign(&pc.chunk_region, &sub);
                proof {
                    c.lemma_view();
                    c0.lemma_view();
                    assert forall|off: Seq<u64>| in_bounds(off, cs) implies #[trigger] patch_ok(
                        c@,
                        self.stored_chunk(before, idx),
                        within,
                        cr,
                        or,
                        off,
                    ) by {
                        if in_region(off, cr) {
                            crate::ndarr::lemma_unshift(off, cr);
                            assert(c.at(off) == sub.at(unshift(off, cr)));
                            assert(sub.at(unshift(off, cr)) == within.at(
                                shift(unshift(off, cr), or),
                            ));
                        } else {
                            assert(c.at(off) == c0.at(off));
                        }
                    }
                }
                c
            };
            let ghost m = chunk@;
            let res = self.write_chunk(store, pc.chunk_idx.as_slice(), chunk);
            proof {
                let next = store.contents();
                assert forall|k: Seq<Seq<char>>| k != key implies next.contains_key(k)
                    == cur.contains_key(k) && next[k] == cur[k] by {
                    assert(cur.remove(key).contains_key(k) == cur.contains_key(k));
                    assert(cur.remove(key)[k] == cur[k]);
                }
                assert forall|k: Seq<Seq<char>>|
                    !self.written(rr, (t + 1) as nat, k) implies #[trigger] same_at(
                    next,
                    before,
                    k,
                ) by {
                    if k == key {
                        assert(k == self.spec_chunk_key(self.spec_touched(rr, t as nat)));
                    }
                    if self.written(rr, t as nat, k) {
                        let u = choose|u: nat|
                            u < t && k == self.spec_chunk_key(#[trigger] self.spec_touched(rr, u));
                    }
                    assert(same_at(cur, before, k));
                }
                assert forall|k: Seq<Seq<char>>| !self.touched_key(rr, k) implies #[trigger] same_at(
                    next,
                    before,
                    k,
                ) by {
                    if self.written(rr, (t + 1) as nat, k) {
                        self.lemma_written(rr, (t + 1) as nat, k);
                    }
                }
            }
            proof {
                let next = store.contents();
                assert forall|u: nat| u < t implies #[trigger] self.patched(
                    next,
                    before,
                    within,
                    rr,
                    u,
                ) by {
                    assert(self.patched(cur, before, within, rr, u));
                    let ku = self.spec_chunk_key(self.spec_touched(rr, u));
                    if ku == key {
                        self.lemma_walk_keys(rr, u, t as nat);
                    }
                    assert(self.stored_chunk(next, self.spec_touched(rr, u)) == self.stored_chunk(
                        cur,
                        self.spec_touched(rr, u),
                    ));
                }
            }
            match res {
                Ok(()) => {},
                Err(e) => {
                    proof {
                        let next = store.contents();
                        assert forall|u: nat| u < t implies #[trigger] self.patched(
                            next,
                            before,
                            array,
                            rr,
                            u,
                        ) by {
                            self.lemma_patched_source(next, before, within, array, rr, u);
                        }
                        assert(self.written_up_to(before, next, array, rr, t as nat));
                    }
                    return Err(e);
                },
            }
            proof {
                let next = store.contents();
                assert forall|u: nat| u < t + 1 implies #[trigger] self.patched(
                    next,
                    before,
                    within,
                    rr,
                    u,
                ) by {
                    if u == t {
                        assert(self.stored_chunk(next, idx) == Ok::<ArrayModel, ZarrError>(m));
                    }
                }
            }
            t += 1;
        }
        proof {
            let last = store.contents();
            assert forall|k: Seq<Seq<char>>| !self.touched_key(rr, k) implies #[trigger] same_at(
                last,
                before,
                k,
            ) by {
                if self.written(rr, t as nat, k) {
                    self.lemma_written(rr, t as nat, k);
                }
            }
            if self.spec_shape().len() == 0 {
                assert forall|k: Seq<Seq<char>>| #[trigger]
                    last.dom().contains(k) == before.dom().contains(k) && last[k] == before[k] by {
                    assert(same_at(last, before, k));
                }
            } else {
                assert forall|x: Seq<u64>| x.len() == self.spec_shape().len() implies #[trigger] self.spec_cell(
                    last,
                    x,
                ) == if in_region(x, rr) {
                    Ok::<Seq<u8>, ZarrError>(array.at(unshift(x, rr)))
                } else {
                    self.spec_cell(before, x)
                } by {
                    let idx = voxel_chunk_index(x, cs);
                    let off = voxel_chunk_offset(x, cs);
                    crate::chunk_grid::lemma_voxel_offset(x, cs);
                    if in_region(x, rr) {
                        crate::chunk_grid::lemma_region_cell(rr, cs, x);
                        let i = unshift(x, rr);
                        let local = span_local(spans, i);
                        let u = ravel(local, counts);
                        crate::chunk_arr::lemma_ravel_bound(local, counts);
                        crate::chunk_arr::lemma_unravel_ravel(local, counts);
                        assert(self.patched(last, before, within, rr, u));
                        assert(patch_ok(
                            self.stored_chunk(last, idx)->Ok_0,
                            self.stored_chunk(before, idx),
                            within,
                            span_chunk_region(spans, local),
                            span_out_region(spans, local),
                            off,
                        ));
                        assert(shift(i, origin@) =~= i);
                    } else if self.touches(rr, idx) {
                        let local = choose|local: Seq<u64>|
                            in_bounds(local, counts) && idx == #[trigger] span_chunk_idx(
                                spans,
                                local,
                            );
                        crate::chunk_grid::lemma_touched_cell(rr, cs, x, local);
                        let u = ravel(local, counts);
                        crate::chunk_arr::lemma_ravel_bound(local, counts);
                        crate::chunk_arr::lemma_unravel_ravel(local, counts);
                        assert(self.patched(last, before, within, rr, u));
                        assert(patch_ok(
                            self.stored_chunk(last, idx)->Ok_0,
                            self.stored_chunk(before, idx),
                            within,
                            span_chunk_region(spans, local),
                            span_out_region(spans, local),
                            off,
                        ));
                    } else {
                        let key = self.spec_chunk_key(idx);
                        if self.written(rr, t as nat, key) {
                            let u = choose|u: nat|
                                u < t && key == self.spec_chunk_key(
                                    #[trigger] self.spec_touched(rr, u),
                                );
                            crate::chunk_arr::lemma_ravel_unravel(u, counts);
                            self.lemma_chunk_keys_differ(idx, self.spec_touched(rr, u));
                        }
                        assert(same_at(last, before, key));
                    }
                }
            }
        }
        Ok(())
    }

    /// The keys directly below the array under which keys lie deeper: all
    /// of them, and perhaps others directly below the array that the store
    /// lists though nothing lies deeper.
    pub fn child_keys<S: ListableStore>(&self, store: &S) -> (r: Result<Vec<NodeKey>, ZarrError>)
        requires
            store.store_wf(),
        ensures
            r matches Ok(v) ==> forall|p: Seq<Seq<char>>| #[trigger]
                crate::store::keys_view(v@).contains(p) ==> crate::store::lies_below(
                    p,
                    self.spec_key(),
                ) && p.len() == self.spec_key().len() + 1,
            r matches Ok(v) ==> forall|p: Seq<Seq<char>>|
                crate::store::lies_below(p, self.spec_key()) && p.len() == self.spec_key().len()
                    + 1 && crate::store::holds_below(store.contents(), p)
                    ==> #[trigger] crate::store::keys_view(v@).contains(p),
            r matches Err(e) ==> e == ZarrError::StoreIo,
    {
        match store.list_dir(&self.key) {
            Ok((_, keys)) => Ok(keys),
            Err(e) => Err(e),
        }
    }

    /// Writes the document of the array's metadata.
    pub fn write_meta<S: WriteableStore>(&self, store: &mut S, document: Vec<u8>) -> (r: Result<
        (),
        ZarrError,
    >)
        requires
            old(store).store_wf(),
        ensures
            final(store).store_wf(),
            r is Ok ==> final(store).contents() == old(store).contents().insert(
                self.spec_meta_key(),
                document@,
            ),
            r matches Err(e) ==> e == ZarrError::StoreIo && final(store).contents().remove(
                self.spec_meta_key(),
            ) == old(store).contents().remove(self.spec_meta_key()),
    {
        store.set(&self.meta_key, document)
    }

    /// Writes a chunk. A chunk whose cells all hold the fill value is
    /// taken out of the store; any other chunk is encoded and put under
    /// its key. Nothing else in the store changes. The chunk must hold
    /// elements of the array's data type. Fails with `DimensionMismatch`
    /// where the chunk has not the shape of the array's chunks, with
    /// `StoreIo` where the store fails, and with the error of the codecs
    /// where they cannot encode the chunk.
    pub fn write_chunk<S: WriteableStore>(&self, store: &mut S, idx: &[u64], chunk: NDArr) -> (r:
        Result<(), ZarrError>)
        requires
            self.wf(),
            chunk.wf(),
            chunk.data_type == self.meta().data_type,
            old(store).store_wf(),
        ensures
            final(store).store_wf(),
            final(store).contents().remove(self.spec_chunk_key(idx@)) == old(store).contents().remove(self.spec_chunk_key(idx@)),
            chunk.shape@ != self.spec_chunk_shape() ==> r == Err::<(), ZarrError>(
                ZarrError::DimensionMismatch,
            ) && final(store).contents() == old(store).contents(),
            r is Ok ==> self.stored_chunk(final(store).contents(), idx@) == Ok::<
                ArrayModel,
                ZarrError,
            >(chunk@),
            r matches Err(e) ==> {
                ||| e == ZarrError::DimensionMismatch && chunk.shape@ != self.spec_chunk_shape()
                ||| e == ZarrError::StoreIo
                ||| !chunk@.all_equal_to(self.fill()) && crate::codecs::chain_encodable(
                    self.meta().codecs,
                    chunk.shape@,
                    chunk.data_type,
                ) == Err::<(), ZarrError>(e)
            },
            r is Ok && chunk@.all_equal_to(self.fill()) ==> final(store).contents() == old(store).contents().remove(self.spec_chunk_key(idx@)),
            r is Ok && !chunk@.all_equal_to(self.fill()) ==> final(store).contents().contains_key(
                self.spec_chunk_key(idx@),
            ) && encodes_to(
                self.meta().codecs,
                final(store).contents()[self.spec_chunk_key(idx@)],
                chunk@,
            ),
    {
        let shape = self.metadata.chunk_grid.chunk_shape_unchecked(self.metadata.shape.as_slice());
        if !crate::coord::slices_equal(chunk.shape.as_slice(), shape.as_slice()) {
            return Err(ZarrError::DimensionMismatch);
        }
        let key = self.chunk_key(idx);
        let ghost m = chunk@;
        proof {
            chunk.lemma_view();
        }
        if chunk.all_equal_to(self.fill_value.as_slice()) {
            proof {
                let f = self.fill();
                let c = |k: int| f;
                crate::codecs::lemma_from_elems_eq(m.shape, m.data_type, c, c);
                assert forall|k: int| 0 <= k < product(m.shape) implies #[trigger] m.elem(k)
                    == ArrayModel::filled(m.shape, m.data_type, f).elem(k) by {
                    ArrayModel::lemma_from_elems(m.shape, m.data_type, c);
                }
                ArrayModel::lemma_ext(m, ArrayModel::filled(m.shape, m.data_type, f));
            }
            return match store.erase(&key) {
                Ok(_) => Ok(()),
                Err(e) => Err(e),
            };
        }
        let bytes = match self.metadata.codecs.encode(chunk) {
            Ok(b) => b,
            Err(e) => {
                return Err(e);
            },
        };
        assert(chain_decode(
            self.meta().codecs,
            bytes@,
            (ReprModel { shape: m.shape, data_type: m.data_type, fill: self.fill() }),
        ) == Ok::<ArrayModel, ZarrError>(m));
        store.set(&key, bytes)
    }

    /// Takes the array and everything below it out of the store.
    pub fn erase<S: WriteableStore>(self, store: &mut S) -> (r: Result<(), ZarrError>)
        requires
            old(store).store_wf(),
        ensures
            final(store).store_wf(),
            r is Ok ==> final(store).contents() == crate::store::without_prefix(
                old(store).contents(),
                self.spec_key(),
            ),
            r matches Err(e) ==> e == ZarrError::StoreIo && crate::store::without_prefix(
                final(store).contents(),
                self.spec_key(),
            ) == crate::store::without_prefix(old(store).contents(), self.spec_key()),
    {
        match store.erase_prefix(&self.key) {
            Ok(_) => Ok(()),
            Err(e) => Err(e),
        }
    }
}

} // verus!
