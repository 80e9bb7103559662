//! Bytes-to-bytes codecs.

pub mod blosc_codec;
pub mod crc32c_codec;
pub mod gzip_codec;

use crate::ZarrError;
use vstd::prelude::*;

verus! {

/// What compressing and checksumming codecs have in common: they turn
/// bytes into bytes, and back.
pub trait BBCodec {
    /// What decoding `bytes` gives.
    spec fn spec_decode(&self, bytes: Seq<u8>) -> Result<Seq<u8>, ZarrError>;

    /// Bytes that decode to `data`.
    fn encode(&self, data: &[u8]) -> (out: Vec<u8>)
        ensures
            self.spec_decode(out@) == Ok::<Seq<u8>, ZarrError>(data@),
    ;

    fn decode(&self, data: &[u8]) -> (r: Result<Vec<u8>, ZarrError>)
        ensures
            r matches Ok(v) ==> self.spec_decode(data@) == Ok::<Seq<u8>, ZarrError>(v@),
            r matches Err(e) ==> self.spec_decode(data@) == Err::<Seq<u8>, ZarrError>(e),
    ;

    /// Number of encoded bytes for a number of decoded bytes, where it can
    /// be told in advance.
    spec fn spec_encoded_size(&self, decoded_size: Option<usize>) -> Option<usize>;

    /// Number of encoded bytes for a number of decoded bytes, where it can
    /// be told in advance.
    fn compute_encoded_size(&self, decoded_size: Option<usize>) -> (r: Option<usize>)
        ensures
            r == self.spec_encoded_size(decoded_size),
    ;
}

/// Four bytes more than the decoded bytes, where that can be counted.
pub open spec fn four_more(decoded_size: Option<usize>) -> Option<usize> {
    match decoded_size {
        Some(n) => if n + 4 <= usize::MAX {
            Some((n + 4) as usize)
        } else {
            None
        },
        None => None,
    }
}

/// The bytes-to-bytes codecs. The checksum codec has nothing to configure,
/// so its configuration may be left out.
#[derive(Clone, Copy, Debug, PartialEq, Eq, Structural)]
pub enum BBCodecType {
    Gzip(gzip_codec::GzipCodec),
    Crc32c(Option<crc32c_codec::Crc32cCodec>),
}

impl BBCodecType {
    /// These codecs fix no number of axes.
    pub fn maybe_ndim(&self) -> (n: Option<usize>)
        ensures
            n.is_none(),
    {
        None
    }
}

impl BBCodec for BBCodecType {
    open spec fn spec_decode(&self, bytes: Seq<u8>) -> Result<Seq<u8>, ZarrError> {
        match self {
            BBCodecType::Gzip(c) => c.spec_decode(bytes),
            BBCodecType::Crc32c(_) => crc32c_codec::spec_validate_crc32c(bytes),
        }
    }

    open spec fn spec_encoded_size(&self, decoded_size: Option<usize>) -> Option<usize> {
        match self {
            BBCodecType::Gzip(_) => None,
            BBCodecType::Crc32c(_) => four_more(decoded_size),
        }
    }

    fn encode(&self, data: &[u8]) -> (out: Vec<u8>) {
        match self {
            BBCodecType::Gzip(c) => c.encode(data),
            BBCodecType::Crc32c(_) => (crc32c_codec::Crc32cCodec {  }).encode(data),
        }
    }

    fn decode(&self, data: &[u8]) -> (r: Result<Vec<u8>, ZarrError>) {
        match self {
            BBCodecType::Gzip(c) => c.decode(data),
            BBCodecType::Crc32c(_) => (crc32c_codec::Crc32cCodec {  }).decode(data),
        }
    }

    fn compute_encoded_size(&self, decoded_size: Option<usize>) -> (r: Option<usize>) {
        match self {
            BBCodecType::Gzip(c) => c.compute_encoded_size(decoded_size),
            BBCodecType::Crc32c(_) => (crc32c_codec::Crc32cCodec {  }).compute_encoded_size(
                decoded_size,
            ),
        }
    }
}

/// What decoding `bytes` through all of the codecs gives: the last codec
/// decodes first.
pub open spec fn spec_bb_decode_all(codecs: Seq<BBCodecType>, bytes: Seq<u8>) -> Result<
    Seq<u8>,
    ZarrError,
>
    decreases codecs.len(),
{
    if codecs.len() == 0 {
        Ok(bytes)
    } else {
        match codecs.last().spec_decode(bytes) {
            Err(e) => Err(e),
            Ok(inner) => spec_bb_decode_all(codecs.drop_last(), inner),
        }
    }
}

/// Encodes `data` with every codec in turn; what comes out decodes to
/// `data`. Without codecs the bytes stay as they are.
pub fn bb_encode_all(codecs: &[BBCodecType], data: Vec<u8>) -> (out: Vec<u8>)
    ensures
        spec_bb_decode_all(codecs@, out@) == Ok::<Seq<u8>, ZarrError>(data@),
        codecs@.len() == 0 ==> out@ == data@,
{
    let ghost orig = data@;
    let mut cur = data;
    let mut i: usize = 0;
    proof {
        assert(codecs@.take(0).len() == 0);
    }
    while i < codecs.len()
        invariant
            i <= codecs@.len(),
            spec_bb_decode_all(codecs@.take(i as int), cur@) == Ok::<Seq<u8>, ZarrError>(orig),
            i == 0 ==> cur@ == orig,
        decreases codecs@.len() - i,
    {
        let ghost before = cur@;
        let next = codecs[i].encode(cur.as_slice());
        proof {
            let t = codecs@.take(i as int + 1);
            assert(t.last() == codecs@[i as int]);
            assert(t.drop_last() =~= codecs@.take(i as int));
        }
        cur = next;
        i += 1;
    }
    proof {
        assert(codecs@.take(codecs@.len() as int) =~= codecs@);
    }
    cur
}

/// Decodes `data` through every codec, the last first. Without codecs the
/// bytes stay as they are.
pub fn bb_decode_all(codecs: &[BBCodecType], data: Vec<u8>) -> (r: Result<Vec<u8>, ZarrError>)
    ensures
        r matches Ok(v) ==> spec_bb_decode_all(codecs@, data@) == Ok::<Seq<u8>, ZarrError>(v@),
        r matches Err(e) ==> spec_bb_decode_all(codecs@, data@) == Err::<Seq<u8>, ZarrError>(e),
{
    let mut cur = data;
    let mut i: usize = codecs.len();
    proof {
        assert(codecs@.take(codecs@.len() as int) =~= codecs@);
    }
    while i > 0
        invariant
            i <= codecs@.len(),
            spec_bb_decode_all(codecs@, data@) == spec_bb_decode_all(codecs@.take(i as int), cur@),
        decreases i,
    {
        proof {
            let t = codecs@.take(i as int);
            assert(t.last() == codecs@[i as int - 1]);
            assert(t.drop_last() =~= codecs@.take(i as int - 1));
        }
        i -= 1;
        match codecs[i].decode(cur.as_slice()) {
            Ok(v) => {
                cur = v;
            },
            Err(e) => {
                return Err(e);
            },
        }
    }
    Ok(cur)
}

/// Number of encoded bytes after the first `n` codecs, where every one
/// of them can tell.
pub open spec fn spec_bb_encoded_size(
    codecs: Seq<BBCodecType>,
    n: nat,
    input_size: Option<usize>,
) -> Option<usize>
    decreases n,
{
    if n == 0 || n > codecs.len() {
        input_size
    } else {
        codecs[n - 1].spec_encoded_size(spec_bb_encoded_size(codecs, (n - 1) as nat, input_size))
    }
}

/// Number of encoded bytes after all codecs, where every codec can tell.
pub fn bb_compute_encoded_size(codecs: &[BBCodecType], input_size: Option<usize>) -> (r: Option<
    usize,
>)
    ensures
        r == spec_bb_encoded_size(codecs@, codecs@.len(), input_size),
{
    let mut acc = input_size;
    let mut i: usize = 0;
    while i < codecs.len()
        invariant
            i <= codecs@.len(),
            acc == spec_bb_encoded_size(codecs@, i as nat, input_size),
        decreases codecs@.len() - i,
    {
        acc = codecs[i].compute_encoded_size(acc);
        i += 1;
    }
    acc
}

impl crate::MaybeNdim for BBCodecType {
    open spec fn spec_maybe_ndim(&self) -> Option<nat> {
        None
    }

    fn maybe_ndim(&self) -> (n: Option<usize>) {
        None
    }
}

} // verus!
