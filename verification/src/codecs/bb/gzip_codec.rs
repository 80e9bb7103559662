use crate::codecs::bb::BBCodec;
use crate::ZarrError;
use std::io::Read;
use std::io::Write;
use vstd::prelude::*;

verus! {

/// How hard gzip tries: from no compression (`L0`) to the best it can do.
#[derive(Clone, Copy, Debug, PartialEq, Eq, Structural)]
pub enum GzipLevel {
    L0,
    L1,
    L2,
    L3,
    L4,
    L5,
    L6,
    L7,
    L8,
    L9,
}

/// A number that is no gzip level.
#[derive(Clone, Copy, Debug, PartialEq, Eq, Structural)]
pub struct InvalidGzipLevel(pub u32);

impl GzipLevel {
    pub open spec fn spec_u32(self) -> u32 {
        match self {
            GzipLevel::L0 => 0,
            GzipLevel::L1 => 1,
            GzipLevel::L2 => 2,
            GzipLevel::L3 => 3,
            GzipLevel::L4 => 4,
            GzipLevel::L5 => 5,
            GzipLevel::L6 => 6,
            GzipLevel::L7 => 7,
            GzipLevel::L8 => 8,
            GzipLevel::L9 => 9,
        }
    }

    /// The level as a number from 0 to 9.
    pub fn to_u32(self) -> (n: u32)
        ensures
            n == self.spec_u32(),
            n <= 9,
    {
        match self {
            GzipLevel::L0 => 0,
            GzipLevel::L1 => 1,
            GzipLevel::L2 => 2,
            GzipLevel::L3 => 3,
            GzipLevel::L4 => 4,
            GzipLevel::L5 => 5,
            GzipLevel::L6 => 6,
            GzipLevel::L7 => 7,
            GzipLevel::L8 => 8,
            GzipLevel::L9 => 9,
        }
    }

    /// The level with the given number, which must be one of 0 to 9.
    pub fn try_from_u32(value: u32) -> (r: Result<GzipLevel, InvalidGzipLevel>)
        ensures
            value <= 9 ==> r is Ok && r->Ok_0.spec_u32() == value,
            value > 9 ==> r == Err::<GzipLevel, InvalidGzipLevel>(InvalidGzipLevel(value)),
    {
        if value == 0 {
            Ok(GzipLevel::L0)
        } else if value == 1 {
            Ok(GzipLevel::L1)
        } else if value == 2 {
            Ok(GzipLevel::L2)
        } else if value == 3 {
            Ok(GzipLevel::L3)
        } else if value == 4 {
            Ok(GzipLevel::L4)
        } else if value == 5 {
            Ok(GzipLevel::L5)
        } else if value == 6 {
            Ok(GzipLevel::L6)
        } else if value == 7 {
            Ok(GzipLevel::L7)
        } else if value == 8 {
            Ok(GzipLevel::L8)
        } else if value == 9 {
            Ok(GzipLevel::L9)
        } else {
            Err(InvalidGzipLevel(value))
        }
    }
}

/// The level that is used where none is configured.
pub fn default_gzip_level() -> (l: GzipLevel)
    ensures
        l == GzipLevel::L6,
{
    GzipLevel::L6
}

/// What decompressing `data` as one gzip member gives, if `data` is one.
pub uninterp spec fn gzip_inflate_of(data: Seq<u8>) -> Option<Seq<u8>>;

/// `flate2::write::GzEncoder`: writes `data` through an encoder of the
/// given level into a vector and finishes the stream. What comes out is a
/// gzip member that decompresses to `data`.
#[verifier::external_body]
fn gzip_deflate(data: &[u8], level: u32) -> (out: Vec<u8>)
    requires
        level <= 9,
    ensures
        gzip_inflate_of(out@) == Some(data@),
{
    let mut e = flate2::write::GzEncoder::new(Vec::new(), flate2::Compression::new(level));
    e.write_all(data).unwrap();
    e.finish().unwrap()
}

/// `flate2::read::GzDecoder`: reads `data` to the end through a decoder;
/// the bytes that come out, or nothing where the decoder reports an error.
#[verifier::external_body]
fn gzip_inflate(data: &[u8]) -> (out: Option<Vec<u8>>)
    ensures
        out matches Some(v) ==> gzip_inflate_of(data@) == Some(v@),
        out.is_none() ==> gzip_inflate_of(data@).is_none(),
{
    let mut d = flate2::read::GzDecoder::new(data);
    let mut out = Vec::new();
    match d.read_to_end(&mut out) {
        Ok(_) => Some(out),
        Err(_) => None,
    }
}

/// The codec that compresses with gzip.
#[derive(Clone, Copy, Debug, PartialEq, Eq, Structural)]
pub struct GzipCodec {
    pub level: GzipLevel,
}

impl Default for GzipCodec {
    fn default() -> (c: GzipCodec)
        ensures
            c.level == GzipLevel::L6,
    {
        GzipCodec { level: default_gzip_level() }
    }
}

impl GzipCodec {
    /// The codec of the level with the given number, which must be one of
    /// 0 to 9.
    pub fn from_level(level: u32) -> (r: Result<GzipCodec, InvalidGzipLevel>)
        ensures
            level <= 9 ==> r is Ok && r->Ok_0.level.spec_u32() == level,
            level > 9 ==> r == Err::<GzipCodec, InvalidGzipLevel>(InvalidGzipLevel(level)),
    {
        match GzipLevel::try_from_u32(level) {
            Ok(l) => Ok(GzipCodec { level: l }),
            Err(e) => Err(e),
        }
    }

    pub fn best() -> (c: GzipCodec)
        ensures
            c.level == GzipLevel::L9,
    {
        GzipCodec { level: GzipLevel::L9 }
    }

    pub fn fastest() -> (c: GzipCodec)
        ensures
            c.level == GzipLevel::L1,
    {
        GzipCodec { level: GzipLevel::L1 }
    }

    pub fn none() -> (c: GzipCodec)
        ensures
            c.level == GzipLevel::L0,
    {
        GzipCodec { level: GzipLevel::L0 }
    }
}

/// What reading gzip bytes gives.
pub open spec fn spec_gunzip(bytes: Seq<u8>) -> Result<Seq<u8>, ZarrError> {
    match gzip_inflate_of(bytes) {
        Some(v) => Ok(v),
        None => Err(ZarrError::DecodeFailure),
    }
}

impl BBCodec for GzipCodec {
    open spec fn spec_decode(&self, bytes: Seq<u8>) -> Result<Seq<u8>, ZarrError> {
        spec_gunzip(bytes)
    }

    /// How long compressed bytes are cannot be told in advance.
    open spec fn spec_encoded_size(&self, decoded_size: Option<usize>) -> Option<usize> {
        None
    }

    fn encode(&self, data: &[u8]) -> (out: Vec<u8>) {
        gzip_deflate(data, self.level.to_u32())
    }

    fn decode(&self, data: &[u8]) -> (r: Result<Vec<u8>, ZarrError>) {
        match gzip_inflate(data) {
            Some(v) => Ok(v),
            None => Err(ZarrError::DecodeFailure),
        }
    }

    fn compute_encoded_size(&self, decoded_size: Option<usize>) -> (r: Option<usize>) {
        None
    }
}

} // verus!
