//! Array-to-bytes codecs.

pub mod bytes_codec;
pub mod endian;
pub mod sharding_indexed;

use crate::codecs::ab::bytes_codec::BytesCodec;
use crate::codecs::ab::bytes_codec::Endian;
use crate::codecs::ab::sharding_indexed::ShardingIndexedCodec;
use vstd::prelude::*;

verus! {

/// The array-to-bytes codecs. The sharding codec holds a codec chain of its
/// own, which may hold a sharding codec again.
#[derive(Debug)]
pub enum ABCodecType {
    Bytes(BytesCodec),
    ShardingIndexed(Box<ShardingIndexedCodec>),
}

impl Default for ABCodecType {
    fn default() -> (c: ABCodecType)
        ensures
            c == ABCodecType::Bytes((BytesCodec { endian: Some(Endian::Little) })),
    {
        ABCodecType::Bytes(BytesCodec { endian: Some(Endian::Little) })
    }
}

impl ABCodecType {
    /// The codec for plain bytes.
    pub fn from_bytes_codec(c: BytesCodec) -> (r: ABCodecType)
        ensures
            r == ABCodecType::Bytes(c),
    {
        ABCodecType::Bytes(c)
    }

    /// The codec for shards.
    pub fn from_sharding(c: ShardingIndexedCodec) -> (r: ABCodecType)
        ensures
            r == ABCodecType::ShardingIndexed(Box::new(c)),
    {
        ABCodecType::ShardingIndexed(Box::new(c))
    }

    /// The byte order that the codec is configured with. A sharding codec
    /// has the byte order of the chain that encodes its sub-chunks.
    pub open spec fn spec_endian(self) -> Option<Endian>
        decreases self,
    {
        match self {
            ABCodecType::Bytes(c) => c.endian,
            ABCodecType::ShardingIndexed(s) => s.codecs.ab_codec.spec_endian(),
        }
    }

    pub fn endian(&self) -> (e: Option<Endian>)
        ensures
            e == self.spec_endian(),
        decreases self,
    {
        match self {
            ABCodecType::Bytes(c) => c.endian,
            ABCodecType::ShardingIndexed(s) => s.codecs.ab_codec.endian(),
        }
    }

    /// The byte order to use for a data type: see
    /// [`crate::data_type::NBytes::valid_endian`].
    pub fn valid_endian(&self, data_type: &crate::data_type::DataType) -> (r: Result<
        Endian,
        crate::data_type::EndianError,
    >)
        ensures
            r == crate::data_type::spec_valid_endian(
                crate::data_type::NBytes::spec_has_endianness(data_type),
                self.spec_endian(),
            ),
    {
        crate::data_type::NBytes::valid_endian(data_type, self.endian())
    }
}

impl crate::MaybeNdim for ABCodecType {
    open spec fn spec_maybe_ndim(&self) -> Option<nat> {
        match self {
            ABCodecType::Bytes(_) => None,
            ABCodecType::ShardingIndexed(s) => Some(s.chunk_shape@.len()),
        }
    }

    fn maybe_ndim(&self) -> (n: Option<usize>) {
        match self {
            ABCodecType::Bytes(_) => None,
            ABCodecType::ShardingIndexed(s) => Some(s.chunk_shape.len()),
        }
    }
}

impl crate::MaybeNdim for BytesCodec {
    open spec fn spec_maybe_ndim(&self) -> Option<nat> {
        None
    }

    fn maybe_ndim(&self) -> (n: Option<usize>) {
        None
    }
}

} // verus!
