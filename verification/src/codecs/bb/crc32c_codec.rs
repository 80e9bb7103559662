use crate::codecs::bb::BBCodec;
use crate::codecs::fwrite::append_bytes;
use crate::codecs::fwrite::copy_range;
use crate::codecs::fwrite::FinalWrite;
use crate::ZarrError;
use vstd::bytes::spec_u32_from_le_bytes;
use vstd::bytes::spec_u32_to_le_bytes;
use vstd::prelude::*;

verus! {

/// The CRC-32C checksum that results when the bytes `data` follow bytes
/// whose checksum is `crc`.
pub uninterp spec fn crc32c_append_of(crc: u32, data: Seq<u8>) -> u32;

/// The CRC-32C checksum of `data`.
pub open spec fn crc32c_of(data: Seq<u8>) -> u32 {
    crc32c_append_of(0, data)
}

/// `crc32c::crc32c_append`: the checksum of the bytes seen so far, carried
/// on over `data`.
#[verifier::external_body]
fn crc32c_append(crc: u32, data: &[u8]) -> (r: u32)
    ensures
        r == crc32c_append_of(crc, data@),
{
    crc32c::crc32c_append(crc, data)
}

/// `crc32c::crc32c`: the checksum of `data`, which the crate defines as the
/// checksum carried on from zero.
#[verifier::external_body]
fn crc32c(data: &[u8]) -> (r: u32)
    ensures
        r == crc32c_append_of(0, data@),
{
    crc32c::crc32c(data)
}

/// `byteorder::LittleEndian::write_u32`: the four bytes of `x`, lowest
/// first.
#[verifier::external_body]
pub(crate) fn u32_le_bytes(x: u32) -> (b: Vec<u8>)
    ensures
        b@ == spec_u32_to_le_bytes(x),
{
    let mut b = vec![0u8; 4];
    <byteorder::LittleEndian as byteorder::ByteOrder>::write_u32(&mut b, x);
    b
}

/// `byteorder::LittleEndian::read_u32`: the number whose four bytes,
/// lowest first, are `b`.
#[verifier::external_body]
pub(crate) fn u32_from_le(b: &[u8]) -> (x: u32)
    requires
        b@.len() == 4,
    ensures
        x == spec_u32_from_le_bytes(b@),
{
    <byteorder::LittleEndian as byteorder::ByteOrder>::read_u32(b)
}

/// A payload followed by its checksum, lowest byte first.
pub open spec fn crc_encoded(payload: Seq<u8>) -> Seq<u8> {
    payload + spec_u32_to_le_bytes(crc32c_of(payload))
}

/// What reading a checksummed payload gives: the payload, where the last
/// four bytes are the checksum of what stands before them.
pub open spec fn spec_validate_crc32c(bytes: Seq<u8>) -> Result<Seq<u8>, ZarrError> {
    if bytes.len() < 4 {
        Err(ZarrError::DecodeFailure)
    } else {
        let payload = bytes.take(bytes.len() - 4);
        let stored = spec_u32_from_le_bytes(bytes.skip(bytes.len() - 4));
        if stored == crc32c_of(payload) {
            Ok(payload)
        } else {
            Err(ZarrError::ChecksumFailure)
        }
    }
}

/// What was written with its checksum reads back as it was.
pub proof fn lemma_crc_roundtrip(payload: Seq<u8>)
    ensures
        spec_validate_crc32c(crc_encoded(payload)) == Ok::<Seq<u8>, ZarrError>(payload),
        crc_encoded(payload).len() == payload.len() + 4,
{
    vstd::bytes::lemma_auto_spec_u32_to_from_le_bytes();
    let e = crc_encoded(payload);
    let sum = spec_u32_to_le_bytes(crc32c_of(payload));
    assert(sum.len() == 4);
    assert(e.take(e.len() - 4) =~= payload);
    assert(e.skip(e.len() - 4) =~= sum);
}

/// A checksummed payload with one byte of its checksum changed fails the
/// check.
pub proof fn lemma_crc_detects_suffix_corruption(payload: Seq<u8>, i: int, b: u8)
    requires
        0 <= i < 4,
        b != crc_encoded(payload)[payload.len() + i],
    ensures
        spec_validate_crc32c(crc_encoded(payload).update(payload.len() + i, b)) == Err::<
            Seq<u8>,
            ZarrError,
        >(ZarrError::ChecksumFailure),
{
    vstd::bytes::lemma_auto_spec_u32_to_from_le_bytes();
    let e = crc_encoded(payload);
    let sum = spec_u32_to_le_bytes(crc32c_of(payload));
    assert(sum.len() == 4);
    let c = e.update(payload.len() + i, b);
    assert(c.take(c.len() - 4) =~= payload);
    let tail = c.skip(c.len() - 4);
    assert(tail.len() == 4);
    assert(tail[i] == b);
    assert(sum[i] == e[payload.len() + i]);
    if spec_u32_from_le_bytes(tail) == crc32c_of(payload) {
        assert(spec_u32_to_le_bytes(spec_u32_from_le_bytes(tail)) == tail);
        assert(tail == sum);
        assert(false);
    }
}

/// A checksummed payload with a byte of the payload changed fails the
/// check, or reads as the changed payload: it can pass only where the
/// changed payload has the checksum of the payload that was written.
pub proof fn lemma_crc_payload_corruption(payload: Seq<u8>, i: int, b: u8)
    requires
        0 <= i < payload.len(),
        b != payload[i],
    ensures
        crc32c_of(payload.update(i, b)) != crc32c_of(payload) ==> spec_validate_crc32c(
            crc_encoded(payload).update(i, b),
        ) == Err::<Seq<u8>, ZarrError>(ZarrError::ChecksumFailure),
        spec_validate_crc32c(crc_encoded(payload).update(i, b)) != Ok::<Seq<u8>, ZarrError>(
            payload,
        ),
{
    vstd::bytes::lemma_auto_spec_u32_to_from_le_bytes();
    let e = crc_encoded(payload);
    let sum = spec_u32_to_le_bytes(crc32c_of(payload));
    assert(sum.len() == 4);
    let c = e.update(i, b);
    assert(c.take(c.len() - 4) =~= payload.update(i, b));
    assert(c.skip(c.len() - 4) =~= sum);
    assert(payload.update(i, b)[i] != payload[i]);
}

/// Reads `bytes` as a payload followed by its checksum and gives the
/// payload, or an error where the checksum does not match.
pub fn validate_crc32c(bytes: &[u8]) -> (r: Result<Vec<u8>, ZarrError>)
    ensures
        r matches Ok(v) ==> spec_validate_crc32c(bytes@) == Ok::<Seq<u8>, ZarrError>(v@),
        r matches Err(e) ==> spec_validate_crc32c(bytes@) == Err::<Seq<u8>, ZarrError>(e),
{
    let n = bytes.len();
    if n < 4 {
        return Err(ZarrError::DecodeFailure);
    }
    let payload = copy_range(bytes, 0, n - 4);
    let suffix = copy_range(bytes, n - 4, n);
    assert(bytes@.subrange(0, n - 4) =~= bytes@.take(n - 4));
    assert(bytes@.subrange(n - 4, n as int) =~= bytes@.skip(n - 4));
    let expected = u32_from_le(suffix.as_slice());
    let actual = crc32c(payload.as_slice());
    if expected == actual {
        Ok(payload)
    } else {
        Err(ZarrError::ChecksumFailure)
    }
}

/// A reader that gives the payload of checksummed bytes once the checksum
/// has been found to match.
pub struct Crc32cReader {
    r: Vec<u8>,
}

impl Crc32cReader {
    pub closed spec fn source(&self) -> Seq<u8> {
        self.r@
    }

    pub fn new(r: Vec<u8>) -> (s: Crc32cReader)
        ensures
            s.source() == r@,
    {
        Crc32cReader { r }
    }

    /// The whole payload, where the checksum matches.
    pub fn read_to_end(&self) -> (r: Result<Vec<u8>, ZarrError>)
        ensures
            r matches Ok(v) ==> spec_validate_crc32c(self.source()) == Ok::<Seq<u8>, ZarrError>(
                v@,
            ),
            r matches Err(e) ==> spec_validate_crc32c(self.source()) == Err::<
                Seq<u8>,
                ZarrError,
            >(e),
    {
        validate_crc32c(self.r.as_slice())
    }
}

/// A sink that passes bytes on and adds their checksum when it is
/// finalized.
pub struct Crc32cWriter {
    w: Vec<u8>,
    checksum: u32,
}

impl Crc32cWriter {
    /// The checksum of what was written, carried on from write to write.
    pub closed spec fn checksum(&self) -> u32 {
        self.checksum
    }

    pub closed spec fn inner(&self) -> Seq<u8> {
        self.w@
    }

    /// A sink that starts with the bytes of `w`, which the checksum does
    /// not cover.
    pub fn new(w: Vec<u8>) -> (s: Crc32cWriter)
        ensures
            s.inner() == w@,
            s.checksum() == 0,
    {
        Crc32cWriter { w, checksum: 0 }
    }

    /// Writes all of `buf` and carries the checksum on over it.
    pub fn write_all(&mut self, buf: &[u8])
        ensures
            final(self).inner() == old(self).inner() + buf@,
            final(self).checksum() == crc32c_append_of(old(self).checksum(), buf@),
    {
        append_bytes(&mut self.w, buf);
        self.checksum = crc32c_append(self.checksum, buf);
    }

    /// Adds the checksum, lowest byte first.
    pub fn finish(&mut self) -> (n: usize)
        ensures
            n == 4,
            final(self).inner() == old(self).inner() + spec_u32_to_le_bytes(old(self).checksum()),
            final(self).checksum() == old(self).checksum(),
    {
        let b = u32_le_bytes(self.checksum);
        append_bytes(&mut self.w, b.as_slice());
        proof {
            vstd::bytes::lemma_auto_spec_u32_to_from_le_bytes();
        }
        4
    }

    /// The bytes that reached the sink.
    pub fn into_inner(self) -> (v: Vec<u8>)
        ensures
            v@ == self.inner(),
    {
        self.w
    }
}

impl FinalWrite for Crc32cWriter {
    open spec fn sink(&self) -> Seq<u8> {
        self.inner()
    }

    fn write(&mut self, buf: &[u8]) {
        self.write_all(buf);
    }

    fn finalize(&mut self) -> (n: usize) {
        let ghost before = self.inner();
        let n = self.finish();
        proof {
            vstd::bytes::lemma_auto_spec_u32_to_from_le_bytes();
            assert(self.inner().take(before.len() as int) =~= before);
        }
        n
    }
}

/// The codec that appends a little-endian CRC-32C checksum to a payload and
/// checks it when the payload is read.
#[derive(Clone, Copy, Debug, PartialEq, Eq, Structural)]
pub struct Crc32cCodec {}

impl Default for Crc32cCodec {
    fn default() -> (c: Crc32cCodec) {
        Crc32cCodec {  }
    }
}

impl BBCodec for Crc32cCodec {
    open spec fn spec_decode(&self, bytes: Seq<u8>) -> Result<Seq<u8>, ZarrError> {
        spec_validate_crc32c(bytes)
    }

    open spec fn spec_encoded_size(&self, decoded_size: Option<usize>) -> Option<usize> {
        crate::codecs::bb::four_more(decoded_size)
    }

    fn encode(&self, data: &[u8]) -> (out: Vec<u8>)
        ensures
            out@ == crc_encoded(data@),
    {
        let mut w = Crc32cWriter::new(Vec::new());
        w.write_all(data);
        let _ = w.finish();
        let out = w.into_inner();
        proof {
            lemma_crc_roundtrip(data@);
            assert(Seq::<u8>::empty() + data@ =~= data@);
            assert(self.spec_decode(out@) == spec_validate_crc32c(out@));
        }
        out
    }

    fn decode(&self, data: &[u8]) -> (r: Result<Vec<u8>, ZarrError>) {
        validate_crc32c(data)
    }

    fn compute_encoded_size(&self, decoded_size: Option<usize>) -> (r: Option<usize>) {
        match decoded_size {
            Some(n) => n.checked_add(4),
            None => None,
        }
    }
}

} // verus!
