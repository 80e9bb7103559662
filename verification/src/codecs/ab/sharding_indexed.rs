use crate::chunk_grid::all_positive;
use crate::codecs::bb::crc32c_codec::crc_encoded;
use crate::codecs::bb::crc32c_codec::spec_validate_crc32c;
use crate::codecs::fwrite::append_bytes;
use crate::codecs::fwrite::copy_range;
use crate::codecs::CodecChain;
use crate::coord::product;
use crate::coord::GridCoord;
use crate::util::DimensionMismatch;
use vstd::bytes::spec_u64_from_le_bytes;
use vstd::bytes::spec_u64_to_le_bytes;
use vstd::prelude::*;

verus! {

/// The codec that stores a chunk as a shard: a grid of sub-chunks, each
/// encoded by the codec's own chain, followed by an index that says where
/// each of them lies.
#[derive(Debug)]
pub struct ShardingIndexedCodec {
    pub chunk_shape: GridCoord,
    pub codecs: CodecChain,
}

/// Why a sub-chunk could not be read.
#[derive(Clone, Copy, Debug, PartialEq, Eq, Structural)]
pub enum ChunkReadError {
    /// The index of the sub-chunk has another number of axes than the
    /// shard.
    DimensionMismatch(DimensionMismatch),
    /// The bytes end too early.
    Io,
}

/// What reading a sub-chunk gave.
#[derive(Clone, Debug)]
pub enum ReadChunk {
    Empty,
    OutOfBounds,
    Contents(Vec<u8>),
}

impl ReadChunk {
    /// The bytes, if there are any.
    pub fn into_option(self) -> (r: Option<Vec<u8>>)
        ensures
            r == match self {
                ReadChunk::Contents(v) => Some(v),
                _ => None,
            },
    {
        match self {
            ReadChunk::Contents(v) => Some(v),
            _ => None,
        }
    }
}

/// Where the bytes of a sub-chunk lie in the shard. The address with both
/// numbers at their maximum stands for a sub-chunk that is not stored.
#[derive(Clone, Copy, Debug, PartialEq, Eq, Structural)]
pub struct ChunkAddress {
    pub offset: u64,
    pub nbytes: u64,
}

/// `byteorder::LittleEndian::write_u64`: the eight bytes of `x`, lowest
/// first.
#[verifier::external_body]
fn u64_le_bytes(x: u64) -> (b: Vec<u8>)
    ensures
        b@ == spec_u64_to_le_bytes(x),
{
    let mut b = vec![0u8; 8];
    <byteorder::LittleEndian as byteorder::ByteOrder>::write_u64(&mut b, x);
    b
}

/// `byteorder::LittleEndian::read_u64`: the number whose eight bytes,
/// lowest first, are `b`.
#[verifier::external_body]
fn u64_from_le(b: &[u8]) -> (x: u64)
    requires
        b@.len() == 8,
    ensures
        x == spec_u64_from_le_bytes(b@),
{
    <byteorder::LittleEndian as byteorder::ByteOrder>::read_u64(b)
}

/// The sixteen bytes of an address in the index.
pub open spec fn addr_bytes(a: ChunkAddress) -> Seq<u8> {
    spec_u64_to_le_bytes(a.offset) + spec_u64_to_le_bytes(a.nbytes)
}

/// The address that sixteen bytes of the index stand for.
pub open spec fn addr_of(b: Seq<u8>) -> ChunkAddress {
    ChunkAddress {
        offset: spec_u64_from_le_bytes(b.subrange(0, 8)),
        nbytes: spec_u64_from_le_bytes(b.subrange(8, 16)),
    }
}

/// The bytes of an index: its addresses one after another.
pub open spec fn index_bytes(addrs: Seq<ChunkAddress>) -> Seq<u8>
    decreases addrs.len(),
{
    if addrs.len() == 0 {
        Seq::empty()
    } else {
        index_bytes(addrs.drop_last()) + addr_bytes(addrs.last())
    }
}

/// The `n` addresses that the bytes of an index stand for.
pub open spec fn parse_index(bytes: Seq<u8>, n: nat) -> Seq<ChunkAddress> {
    Seq::new(n, |i: int| addr_of(bytes.subrange(16 * i, 16 * i + 16)))
}

pub proof fn lemma_addr_roundtrip(a: ChunkAddress)
    ensures
        addr_bytes(a).len() == 16,
        addr_of(addr_bytes(a)) == a,
{
    vstd::bytes::lemma_auto_spec_u64_to_from_le_bytes();
    let b = addr_bytes(a);
    assert(b.subrange(0, 8) =~= spec_u64_to_le_bytes(a.offset));
    assert(b.subrange(8, 16) =~= spec_u64_to_le_bytes(a.nbytes));
}

/// The bytes of an index hold sixteen bytes for every address, and read
/// back as the addresses.
pub proof fn lemma_index_roundtrip(addrs: Seq<ChunkAddress>)
    ensures
        index_bytes(addrs).len() == 16 * addrs.len(),
        parse_index(index_bytes(addrs), addrs.len()) == addrs,
    decreases addrs.len(),
{
    if addrs.len() > 0 {
        let pre = addrs.drop_last();
        lemma_index_roundtrip(pre);
        lemma_addr_roundtrip(addrs.last());
        let b = index_bytes(addrs);
        let p = parse_index(b, addrs.len());
        assert forall|i: int| 0 <= i < addrs.len() implies p[i] == addrs[i] by {
            if i < pre.len() {
                assert(b.subrange(16 * i, 16 * i + 16) =~= index_bytes(pre).subrange(
                    16 * i,
                    16 * i + 16,
                ));
                assert(parse_index(index_bytes(pre), pre.len())[i] == pre[i]);
            } else {
                assert(b.subrange(16 * i, 16 * i + 16) =~= addr_bytes(addrs.last()));
            }
        }
    } else {
    }
}

impl ChunkAddress {
    pub open spec fn spec_is_empty(self) -> bool {
        self.offset == u64::MAX && self.nbytes == u64::MAX
    }

    /// Whether the address stands for a sub-chunk that is not stored.
    pub fn is_empty(&self) -> (b: bool)
        ensures
            b == self.spec_is_empty(),
    {
        self.offset == u64::MAX && self.nbytes == u64::MAX
    }

    /// Number of bytes of an address in the index.
    pub fn nbytes() -> (n: usize)
        ensures
            n == 16,
    {
        16
    }

    /// The address of a sub-chunk that is not stored.
    pub fn empty() -> (a: ChunkAddress)
        ensures
            a.spec_is_empty(),
    {
        ChunkAddress { offset: u64::MAX, nbytes: u64::MAX }
    }

    /// Reads an address from the first sixteen bytes of `b`.
    pub fn from_reader(b: &[u8]) -> (r: Result<ChunkAddress, ChunkReadError>)
        ensures
            b@.len() < 16 ==> r == Err::<ChunkAddress, ChunkReadError>(ChunkReadError::Io),
            b@.len() >= 16 ==> r == Ok::<ChunkAddress, ChunkReadError>(addr_of(b@.subrange(0, 16))),
    {
        if b.len() < 16 {
            return Err(ChunkReadError::Io);
        }
        let lo = copy_range(b, 0, 8);
        let hi = copy_range(b, 8, 16);
        let offset = u64_from_le(lo.as_slice());
        let nbytes = u64_from_le(hi.as_slice());
        proof {
            let s = b@.subrange(0, 16);
            assert(s.subrange(0, 8) =~= b@.subrange(0, 8));
            assert(s.subrange(8, 16) =~= b@.subrange(8, 16));
        }
        Ok(ChunkAddress { offset, nbytes })
    }

    /// Appends the sixteen bytes of the address to `w`.
    pub fn write_to(&self, w: &mut Vec<u8>)
        ensures
            final(w)@ == old(w)@ + addr_bytes(*self),
    {
        let lo = u64_le_bytes(self.offset);
        let hi = u64_le_bytes(self.nbytes);
        append_bytes(w, lo.as_slice());
        append_bytes(w, hi.as_slice());
    }

    /// The bytes of `r` at which the address points, where they lie within
    /// `r`.
    pub fn read_range(&self, r: &[u8]) -> (out: Result<Vec<u8>, ChunkReadError>)
        ensures
            self.offset + self.nbytes <= r@.len() ==> out is Ok && out->Ok_0@ == r@.subrange(
                self.offset as int,
                self.offset + self.nbytes,
            ),
            self.offset + self.nbytes > r@.len() ==> out == Err::<Vec<u8>, ChunkReadError>(
                ChunkReadError::Io,
            ),
    {
        let len: u64 = r.len() as u64;
        if self.offset > len || self.nbytes > len - self.offset {
            return Err(ChunkReadError::Io);
        }
        Ok(copy_range(r, self.offset as usize, (self.offset + self.nbytes) as usize))
    }

    /// One past the last byte of the sub-chunk, if it is stored and that
    /// position can be counted.
    pub fn end_offset(&self) -> (r: Option<u64>)
        ensures
            self.spec_is_empty() ==> r.is_none(),
            !self.spec_is_empty() && self.offset + self.nbytes <= u64::MAX ==> r == Some(
                (self.offset + self.nbytes) as u64,
            ),
            !self.spec_is_empty() && self.offset + self.nbytes > u64::MAX ==> r.is_none(),
    {
        if self.is_empty() {
            None
        } else {
            self.offset.checked_add(self.nbytes)
        }
    }
}

/// Why addresses and a grid of sub-chunks do not belong together.
#[derive(Clone, Copy, Debug, PartialEq, Eq, Structural)]
pub enum ChunkSpecError {
    /// The grid has no axes.
    EmptyChunkShape,
    /// An axis of the grid has length zero.
    ZeroChunkDimension,
    /// The grid has another number of cells (first number; the largest
    /// number there is where they cannot be counted) than there are
    /// addresses (second number).
    MismatchedChunkNumber(usize, usize),
}

/// Why the index of a shard could not be read.
#[derive(Clone, Copy, Debug, PartialEq, Eq, Structural)]
pub enum ChunkSpecConstructionError {
    MalformedSpec(ChunkSpecError),
    /// The bytes are fewer than the index needs.
    IoError,
    ChecksumFailure,
}

/// Why an address could not be replaced.
#[derive(Debug)]
pub enum ChunkSpecModificationError {
    OutOfBounds { coord: GridCoord, shape: GridCoord },
    DimensionMismatch(DimensionMismatch),
}

impl ChunkSpecError {
    pub open spec fn spec_check_data(data_len: nat, shape: Seq<u64>) -> Result<(), ChunkSpecError> {
        if shape.len() == 0 {
            Err(ChunkSpecError::EmptyChunkShape)
        } else if !all_positive(shape) {
            Err(ChunkSpecError::ZeroChunkDimension)
        } else if product(shape) > usize::MAX {
            Err(ChunkSpecError::MismatchedChunkNumber(usize::MAX, data_len as usize))
        } else if product(shape) != data_len {
            Err(ChunkSpecError::MismatchedChunkNumber(product(shape) as usize, data_len as usize))
        } else {
            Ok(())
        }
    }

    /// Checks that the grid has axes, none of length zero, and as many
    /// cells as there are addresses.
    pub fn check_data(data_len: usize, shape: &GridCoord) -> (r: Result<(), ChunkSpecError>)
        ensures
            r == Self::spec_check_data(data_len as nat, shape@),
    {
        let s = shape.as_slice();
        if s.len() == 0 {
            return Err(ChunkSpecError::EmptyChunkShape);
        }
        let mut i: usize = 0;
        while i < s.len()
            invariant
                s@ == shape@,
                s@.len() > 0,
                i <= s@.len(),
                forall|j: int| 0 <= j < i ==> s@[j] > 0,
            decreases s@.len() - i,
        {
            if s[i] == 0 {
                return Err(ChunkSpecError::ZeroChunkDimension);
            }
            i += 1;
        }
        match crate::coord::checked_numel(s) {
            None => Err(ChunkSpecError::MismatchedChunkNumber(usize::MAX, data_len)),
            Some(prod) => {
                if prod != data_len {
                    Err(ChunkSpecError::MismatchedChunkNumber(prod, data_len))
                } else {
                    Ok(())
                }
            },
        }
    }
}

/// The index of a shard: the address of every sub-chunk, in C order over
/// the grid of sub-chunks.
#[derive(Debug)]
pub struct ChunkSpec {
    chunk_idxs: Vec<ChunkAddress>,
    shape: GridCoord,
}

/// What reading the index at the end of a shard gives, for a grid of `n`
/// sub-chunks: the addresses, where the bytes are long enough and the
/// checksum of the index matches.
pub open spec fn spec_read_index(bytes: Seq<u8>, n: nat) -> Result<
    Seq<ChunkAddress>,
    ChunkSpecConstructionError,
> {
    if bytes.len() < 16 * n + 4 {
        Err(ChunkSpecConstructionError::IoError)
    } else {
        match spec_validate_crc32c(bytes.skip(bytes.len() - (16 * n + 4))) {
            Err(_) => Err(ChunkSpecConstructionError::ChecksumFailure),
            Ok(index) => Ok(parse_index(index, n)),
        }
    }
}

/// The bytes that end a shard: the index and its checksum.
pub open spec fn shard_footer(addrs: Seq<ChunkAddress>) -> Seq<u8> {
    crc_encoded(index_bytes(addrs))
}

/// The footer of a shard reads back as its addresses, whatever stands
/// before it.
pub proof fn lemma_footer_roundtrip(payload: Seq<u8>, addrs: Seq<ChunkAddress>)
    ensures
        shard_footer(addrs).len() == 16 * addrs.len() + 4,
        spec_read_index(payload + shard_footer(addrs), addrs.len()) == Ok::<
            Seq<ChunkAddress>,
            ChunkSpecConstructionError,
        >(addrs),
        (payload + shard_footer(addrs)).take(payload.len() as int) == payload,
{
    lemma_index_roundtrip(addrs);
    crate::codecs::bb::crc32c_codec::lemma_crc_roundtrip(index_bytes(addrs));
    let all = payload + shard_footer(addrs);
    assert(all.skip(all.len() - (16 * addrs.len() + 4)) =~= shard_footer(addrs));
}

impl ChunkSpec {
    pub closed spec fn addrs(&self) -> Seq<ChunkAddress> {
        self.chunk_idxs@
    }

    pub closed spec fn shape(&self) -> Seq<u64> {
        self.shape@
    }

    /// The index has one address for every cell of its grid.
    pub open spec fn wf(&self) -> bool {
        ChunkSpecError::spec_check_data(self.addrs().len(), self.shape()) is Ok
    }

    /// The index with the given addresses for the given grid, where the
    /// grid has axes, none of length zero, and as many cells as there are
    /// addresses.
    pub fn new(chunk_idxs: Vec<ChunkAddress>, shape: GridCoord) -> (r: Result<
        ChunkSpec,
        ChunkSpecError,
    >)
        ensures
            r matches Ok(s) ==> s.wf() && s.addrs() == chunk_idxs@ && s.shape() == shape@,
            r matches Err(e) ==> ChunkSpecError::spec_check_data(chunk_idxs@.len(), shape@) == Err::<
                (),
                ChunkSpecError,
            >(e),
    {
        match ChunkSpecError::check_data(chunk_idxs.len(), &shape) {
            Ok(()) => Ok(ChunkSpec::new_unchecked(chunk_idxs, shape)),
            Err(e) => Err(e),
        }
    }

    /// Skips the checks.
    pub fn new_unchecked(chunk_idxs: Vec<ChunkAddress>, shape: GridCoord) -> (s: ChunkSpec)
        ensures
            s.addrs() == chunk_idxs@,
            s.shape() == shape@,
    {
        ChunkSpec { chunk_idxs, shape }
    }

    /// Reads the index from the end of a whole shard. A grid without cells
    /// has an index without addresses, whatever the bytes are.
    pub fn from_shard(r: &[u8], shape: GridCoord) -> (out: Result<
        ChunkSpec,
        ChunkSpecConstructionError,
    >)
        requires
            product(shape@) * 16 + 4 <= usize::MAX,
        ensures
            product(shape@) == 0 ==> out is Ok && out->Ok_0.addrs().len() == 0 && out->Ok_0.shape()
                == shape@,
            product(shape@) > 0 && r@.len() < 16 * product(shape@) + 4 ==> out == Err::<
                ChunkSpec,
                ChunkSpecConstructionError,
            >(ChunkSpecConstructionError::IoError),
            product(shape@) > 0 && r@.len() >= 16 * product(shape@) + 4 ==> spec_from_reader(
                r@.skip(r@.len() - (16 * product(shape@) + 4)),
                shape@,
                out,
            ),
    {
        let prod = match crate::coord::checked_numel(shape.as_slice()) {
            Some(p) => p,
            None => {
                assert(false);
                0
            },
        };
        if prod == 0 {
            return Ok(ChunkSpec::new_unchecked(Vec::new(), shape));
        }
        let footer: usize = prod * 16 + 4;
        if r.len() < footer {
            return Err(ChunkSpecConstructionError::IoError);
        }
        let tail = copy_range(r, r.len() - footer, r.len());
        ChunkSpec::from_reader(tail.as_slice(), shape)
    }

    /// Reads the index from the start of the bytes: the addresses and their
    /// checksum. What stands behind them is not read.
    pub fn from_reader(r: &[u8], shape: GridCoord) -> (out: Result<
        ChunkSpec,
        ChunkSpecConstructionError,
    >)
        requires
            product(shape@) * 16 + 4 <= usize::MAX,
        ensures
            spec_from_reader(r@, shape@, out),
    {
        let n = match crate::coord::checked_numel(shape.as_slice()) {
            Some(p) => p,
            None => {
                assert(false);
                0
            },
        };
        let buf_len: usize = n * 16 + 4;
        if r.len() < buf_len {
            return Err(ChunkSpecConstructionError::IoError);
        }
        let buf = copy_range(r, 0, buf_len);
        assert(r@.subrange(0, buf_len as int) =~= r@.take(buf_len as int));
        assert(buf@.skip(0) =~= buf@);
        let index = match crate::codecs::bb::crc32c_codec::validate_crc32c(buf.as_slice()) {
            Ok(v) => v,
            Err(_) => {
                return Err(ChunkSpecConstructionError::ChecksumFailure);
            },
        };
        let addrs = parse_addresses(index.as_slice(), n);
        match ChunkSpec::new(addrs, shape) {
            Ok(s) => Ok(s),
            Err(e) => Err(ChunkSpecConstructionError::MalformedSpec(e)),
        }
    }

    /// Appends the index and its checksum to `w`.
    pub fn write_to(&self, w: &mut Vec<u8>)
        ensures
            final(w)@ == old(w)@ + shard_footer(self.addrs()),
    {
        let footer = footer_bytes(self.chunk_idxs.as_slice());
        append_bytes(w, footer.as_slice());
    }

    /// Where the index starts, counted in bytes from the end of the shard.
    pub fn offset(&self) -> (r: isize)
        requires
            16 * self.addrs().len() + 4 <= isize::MAX,
        ensures
            r == -(16 * self.addrs().len() + 4),
    {
        let n: isize = self.chunk_idxs.len() as isize;
        -(16 * n + 4)
    }

    /// The address of the sub-chunk with the given index in the grid; none
    /// where the index lies beyond the grid.
    pub fn get_idx(&self, idx: &GridCoord) -> (r: Result<Option<ChunkAddress>, DimensionMismatch>)
        requires
            self.wf(),
        ensures
            idx@.len() != self.shape().len() ==> r == Err::<
                Option<ChunkAddress>,
                DimensionMismatch,
            >(
                (DimensionMismatch {
                    ref_ndim: idx@.len() as usize,
                    other_ndim: self.shape().len() as usize,
                }),
            ),
            idx@.len() == self.shape().len() && !crate::chunk_arr::in_bounds(idx@, self.shape())
                ==> r == Ok::<Option<ChunkAddress>, DimensionMismatch>(None),
            crate::chunk_arr::in_bounds(idx@, self.shape()) ==> r == Ok::<
                Option<ChunkAddress>,
                DimensionMismatch,
            >(Some(self.addrs()[crate::chunk_arr::ravel(idx@, self.shape()) as int])),
    {
        match to_linear_idx(idx, &self.shape) {
            Err(e) => Err(e),
            Ok(None) => Ok(None),
            Ok(Some(t)) => Ok(Some(self.chunk_idxs[t])),
        }
    }

    /// Replaces the address of the sub-chunk with the given index in the
    /// grid and gives the address that stood there.
    pub fn set_idx(&mut self, idx: &GridCoord, chunk_idx: ChunkAddress) -> (r: Result<
        ChunkAddress,
        ChunkSpecModificationError,
    >)
        requires
            old(self).wf(),
        ensures
            final(self).wf(),
            final(self).shape() == old(self).shape(),
            crate::chunk_arr::in_bounds(idx@, old(self).shape()) ==> {
                let t = crate::chunk_arr::ravel(idx@, old(self).shape()) as int;
                &&& r is Ok
                &&& r->Ok_0 == old(self).addrs()[t]
                &&& final(self).addrs() == old(self).addrs().update(t, chunk_idx)
            },
            !crate::chunk_arr::in_bounds(idx@, old(self).shape()) ==> {
                &&& r is Err
                &&& final(self).addrs() == old(self).addrs()
            },
            idx@.len() != old(self).shape().len() ==> r is Err && r->Err_0 is DimensionMismatch,
            idx@.len() == old(self).shape().len() && !crate::chunk_arr::in_bounds(
                idx@,
                old(self).shape(),
            ) ==> r is Err && r->Err_0 is OutOfBounds,
    {
        match to_linear_idx(idx, &self.shape) {
            Err(e) => Err(ChunkSpecModificationError::DimensionMismatch(e)),
            Ok(None) => Err(
                ChunkSpecModificationError::OutOfBounds {
                    coord: idx.clone(),
                    shape: self.shape.clone(),
                },
            ),
            Ok(Some(t)) => {
                let before = self.chunk_idxs[t];
                self.chunk_idxs.set(t, chunk_idx);
                Ok(before)
            },
        }
    }

    /// Where the first gap of more than `min_size` bytes between stored
    /// sub-chunks starts, see [`first_gap`].
    pub fn get_first_gap(&self, min_size: u64) -> (r: u64)
        ensures
            is_first_gap(self.addrs(), min_size, r),
    {
        first_gap(self.chunk_idxs.as_slice(), min_size)
    }

    /// Number of addresses.
    pub fn n_subchunks(&self) -> (n: usize)
        ensures
            n == self.addrs().len(),
    {
        self.chunk_idxs.len()
    }
}

/// Whether the address is that of a stored sub-chunk whose end can be
/// counted.
pub open spec fn is_used(a: ChunkAddress) -> bool {
    !a.spec_is_empty() && a.offset + a.nbytes <= u64::MAX
}

/// Whether more than `min_size` bytes lie between the end of the
/// sub-chunk at `a` and every stored sub-chunk that starts behind the
/// start of `a`.
pub open spec fn gap_behind(addrs: Seq<ChunkAddress>, a: ChunkAddress, min_size: u64) -> bool {
    forall|j: int|
        0 <= j < addrs.len() && is_used(#[trigger] addrs[j]) && addrs[j].offset > a.offset
            ==> addrs[j].offset - (a.offset + a.nbytes) > min_size
}

/// Whether `r` is where the first gap of more than `min_size` bytes
/// starts: the end of the stored sub-chunk that starts first among those
/// with such a gap behind them. The last stored sub-chunk has one. Where
/// no sub-chunk is stored, the gap starts at 0.
pub open spec fn is_first_gap(addrs: Seq<ChunkAddress>, min_size: u64, r: u64) -> bool {
    if forall|j: int| 0 <= j < addrs.len() ==> !is_used(#[trigger] addrs[j]) {
        r == 0
    } else {
        exists|k: int|
            0 <= k < addrs.len() && is_used(#[trigger] addrs[k]) && r == addrs[k].offset
                + addrs[k].nbytes && gap_behind(addrs, addrs[k], min_size) && forall|j: int|
                0 <= j < addrs.len() && is_used(#[trigger] addrs[j]) && addrs[j].offset
                    < addrs[k].offset ==> !gap_behind(addrs, addrs[j], min_size)
    }
}

/// Whether more than `min_size` bytes lie behind the sub-chunk at `a`
/// before the next stored sub-chunk starts.
fn has_gap_behind(addrs: &[ChunkAddress], a: ChunkAddress, min_size: u64) -> (b: bool)
    requires
        is_used(a),
    ensures
        b == gap_behind(addrs@, a, min_size),
{
    let end = a.offset + a.nbytes;
    let mut j: usize = 0;
    while j < addrs.len()
        invariant
            j <= addrs@.len(),
            end == a.offset + a.nbytes,
            forall|i: int|
                0 <= i < j && is_used(#[trigger] addrs@[i]) && addrs@[i].offset > a.offset
                    ==> addrs@[i].offset - end > min_size,
        decreases addrs@.len() - j,
    {
        let b = addrs[j];
        if b.end_offset().is_some() && b.offset > a.offset {
            if b.offset < end || b.offset - end <= min_size {
                return false;
            }
        }
        j += 1;
    }
    true
}

/// Where the first gap of more than `min_size` bytes between stored
/// sub-chunks starts; behind the last stored sub-chunk where there is
/// none before.
pub fn first_gap(addrs: &[ChunkAddress], min_size: u64) -> (r: u64)
    ensures
        is_first_gap(addrs@, min_size, r),
{
    let mut best: Option<usize> = None;
    let ghost mut top: Option<int> = None;
    let mut k: usize = 0;
    while k < addrs.len()
        invariant
            k <= addrs@.len(),
            best matches Some(b) ==> b < k && is_used(addrs@[b as int]) && gap_behind(
                addrs@,
                addrs@[b as int],
                min_size,
            ),
            best matches Some(b) ==> forall|j: int|
                0 <= j < k && is_used(#[trigger] addrs@[j]) && addrs@[j].offset
                    < addrs@[b as int].offset ==> !gap_behind(addrs@, addrs@[j], min_size),
            best.is_none() ==> forall|j: int|
                0 <= j < k && is_used(#[trigger] addrs@[j]) ==> !gap_behind(
                    addrs@,
                    addrs@[j],
                    min_size,
                ),
            top matches Some(t) ==> 0 <= t < k && is_used(addrs@[t]),
            top matches Some(t) ==> forall|j: int|
                0 <= j < k && is_used(#[trigger] addrs@[j]) ==> addrs@[j].offset
                    <= addrs@[t].offset,
            top.is_none() ==> forall|j: int| 0 <= j < k ==> !is_used(#[trigger] addrs@[j]),
        decreases addrs@.len() - k,
    {
        let a = addrs[k];
        if a.end_offset().is_some() {
            proof {
                if top.is_none() || a.offset > addrs@[top.unwrap()].offset {
                    top = Some(k as int);
                }
            }
            if has_gap_behind(addrs, a, min_size) {
                let better = match best {
                    None => true,
                    Some(b) => a.offset < addrs[b].offset,
                };
                if better {
                    best = Some(k);
                }
            }
        }
        k += 1;
    }
    match best {
        Some(b) => addrs[b].offset + addrs[b].nbytes,
        None => {
            proof {
                if top is Some {
                }
            }
            0
        },
    }
}

/// What [`ChunkSpec::from_reader`] gives for the bytes `r`: it reads as
/// many bytes as the addresses of the grid and their checksum take, from
/// the start of `r`, and fails with `IoError` only where `r` has fewer.
pub open spec fn spec_from_reader(
    r: Seq<u8>,
    shape: Seq<u64>,
    out: Result<ChunkSpec, ChunkSpecConstructionError>,
) -> bool {
    let n = product(shape);
    if r.len() < 16 * n + 4 {
        out == Err::<ChunkSpec, ChunkSpecConstructionError>(ChunkSpecConstructionError::IoError)
    } else {
        match spec_read_index(r.take((16 * n + 4) as int), n) {
            Err(e) => out == Err::<ChunkSpec, ChunkSpecConstructionError>(e),
            Ok(addrs) => match ChunkSpecError::spec_check_data(n, shape) {
                Err(e) => out == Err::<ChunkSpec, ChunkSpecConstructionError>(
                    ChunkSpecConstructionError::MalformedSpec(e),
                ),
                Ok(()) => out is Ok && out->Ok_0.addrs() == addrs && out->Ok_0.shape() == shape
                    && out->Ok_0.wf(),
            },
        }
    }
}

/// Reads `n` addresses from the bytes of an index.
pub fn parse_addresses(index: &[u8], n: usize) -> (addrs: Vec<ChunkAddress>)
    requires
        index@.len() == 16 * n,
    ensures
        addrs@ == parse_index(index@, n as nat),
{
    let mut addrs: Vec<ChunkAddress> = Vec::new();
    let total: usize = index.len();
    let mut i: usize = 0;
    while i < n
        invariant
            index@.len() == 16 * n,
            total == 16 * n,
            i <= n,
            addrs@.len() == i,
            forall|j: int|
                0 <= j < i ==> addrs@[j] == addr_of(index@.subrange(16 * j, 16 * j + 16)),
        decreases n - i,
    {
        let part = copy_range(index, 16 * i, 16 * i + 16);
        match ChunkAddress::from_reader(part.as_slice()) {
            Ok(a) => {
                assert(part@.subrange(0, 16) =~= part@);
                addrs.push(a);
            },
            Err(_) => {
                assert(false);
            },
        }
        i += 1;
    }
    addrs
}

/// The bytes that end a shard with the given addresses: the index and its
/// checksum.
pub fn footer_bytes(addrs: &[ChunkAddress]) -> (out: Vec<u8>)
    ensures
        out@ == shard_footer(addrs@),
{
    let mut index: Vec<u8> = Vec::new();
    let mut i: usize = 0;
    while i < addrs.len()
        invariant
            i <= addrs@.len(),
            index@ == index_bytes(addrs@.take(i as int)),
        decreases addrs@.len() - i,
    {
        addrs[i].write_to(&mut index);
        proof {
            let t = addrs@.take(i as int + 1);
            assert(t.drop_last() =~= addrs@.take(i as int));
        }
        i += 1;
    }
    proof {
        assert(addrs@.take(addrs@.len() as int) =~= addrs@);
    }
    let codec = crate::codecs::bb::crc32c_codec::Crc32cCodec {  };
    crate::codecs::bb::BBCodec::encode(&codec, index.as_slice())
}

/// Position of a cell in the C-order layout of a grid; none where the cell
/// lies beyond the grid.
pub fn to_linear_idx(coord: &GridCoord, shape: &GridCoord) -> (r: Result<
    Option<usize>,
    DimensionMismatch,
>)
    requires
        product(shape@) <= usize::MAX,
    ensures
        coord@.len() != shape@.len() ==> r == Err::<Option<usize>, DimensionMismatch>(
            (DimensionMismatch {
                ref_ndim: coord@.len() as usize,
                other_ndim: shape@.len() as usize,
            }),
        ),
        coord@.len() == shape@.len() && !crate::chunk_arr::in_bounds(coord@, shape@) ==> r == Ok::<
            Option<usize>,
            DimensionMismatch,
        >(None),
        crate::chunk_arr::in_bounds(coord@, shape@) ==> r == Ok::<Option<usize>, DimensionMismatch>(
            Some(crate::chunk_arr::ravel(coord@, shape@) as usize),
        ) && crate::chunk_arr::ravel(coord@, shape@) < product(shape@),
{
    match DimensionMismatch::check_coords(coord.len(), shape.len()) {
        Err(e) => {
            return Err(e);
        },
        Ok(()) => {},
    }
    let c = coord.as_slice();
    let s = shape.as_slice();
    let mut d: usize = 0;
    while d < c.len()
        invariant
            c@ == coord@,
            s@ == shape@,
            c@.len() == s@.len(),
            d <= c@.len(),
            forall|e: int| 0 <= e < d ==> c@[e] < s@[e],
        decreases c@.len() - d,
    {
        if c[d] >= s[d] {
            return Ok(None);
        }
        d += 1;
    }
    Ok(Some(crate::chunk_arr::ravel_index(c, s)))
}

impl crate::Ndim for ShardingIndexedCodec {
    open spec fn spec_ndim(&self) -> nat {
        self.chunk_shape@.len()
    }

    fn ndim(&self) -> (n: usize) {
        self.chunk_shape.len()
    }
}

impl ShardingIndexedCodec {
    /// The codec for sub-chunks of the given shape, which encodes them by
    /// writing their elements in little-endian order.
    pub fn new(chunk_shape: GridCoord) -> (c: ShardingIndexedCodec)
        ensures
            c.chunk_shape@ == chunk_shape@,
            c.codecs.aa_codecs@.len() == 0,
            c.codecs.bb_codecs@.len() == 0,
            c.codecs.ab_codec == crate::codecs::ab::ABCodecType::Bytes(
                (crate::codecs::ab::bytes_codec::BytesCodec {
                    endian: Some(crate::codecs::ab::bytes_codec::Endian::Little),
                }),
            ),
    {
        ShardingIndexedCodec { chunk_shape, codecs: CodecChain::default() }
    }

    /// Number of sub-chunks along every axis of a shard of the given
    /// shape, where it is a whole number of sub-chunks.
    pub fn n_chunks(&self, shard_shape: &[u64]) -> (r: Result<Vec<u64>, crate::ZarrError>)
        ensures
            crate::codecs::shard_shape_ok(shard_shape@, self.chunk_shape@) ==> r is Ok && r->Ok_0@
                == crate::codecs::shard_counts(shard_shape@, self.chunk_shape@),
            !crate::codecs::shard_shape_ok(shard_shape@, self.chunk_shape@) ==> r == Err::<
                Vec<u64>,
                crate::ZarrError,
            >(crate::ZarrError::InvalidMetadata),
    {
        if !crate::codecs::check_shard_shape(shard_shape, self.chunk_shape.as_slice()) {
            return Err(crate::ZarrError::InvalidMetadata);
        }
        Ok(crate::codecs::shard_counts_of(shard_shape, self.chunk_shape.as_slice()))
    }

    /// Sets the array-to-bytes codec of the sub-chunks. Fails where the
    /// codec fixes another number of axes than the sub-chunks have.
    pub fn ab_codec(self, codec: crate::codecs::ab::ABCodecType) -> (r: Result<
        ShardingIndexedCodec,
        crate::NdimError,
    >)
        ensures
            r is Ok <==> crate::spec_union_ndim(
                Some(self.chunk_shape@.len()),
                crate::MaybeNdim::spec_maybe_ndim(&codec),
            ) is Ok,
            r matches Ok(c) ==> c.chunk_shape@ == self.chunk_shape@ && c.codecs.ab_codec == codec
                && c.codecs.aa_codecs == self.codecs.aa_codecs && c.codecs.bb_codecs
                == self.codecs.bb_codecs,
    {
        match crate::MaybeNdim::maybe_ndim(&codec) {
            Some(n) => {
                if n != self.chunk_shape.len() {
                    return Err(crate::NdimError::Inconsistent);
                }
            },
            None => {},
        }
        let mut s = self;
        let _ = s.codecs.replace_ab_codec(codec);
        Ok(s)
    }

    /// Appends an array-to-array codec to the codecs of the sub-chunks.
    /// Fails where the codec takes another number of axes than the
    /// sub-chunks have.
    pub fn push_aa_codec(self, codec: crate::codecs::aa::AACodecType) -> (r: Result<
        ShardingIndexedCodec,
        crate::NdimError,
    >)
        ensures
            r is Ok <==> codec.spec_ndim() == self.chunk_shape@.len(),
            r matches Ok(c) ==> c.chunk_shape@ == self.chunk_shape@ && c.codecs.aa_codecs@
                == self.codecs.aa_codecs@.push(codec) && c.codecs.ab_codec == self.codecs.ab_codec
                && c.codecs.bb_codecs == self.codecs.bb_codecs,
    {
        match codec.maybe_ndim() {
            Some(n) => {
                if n != self.chunk_shape.len() {
                    return Err(crate::NdimError::Inconsistent);
                }
            },
            None => {},
        }
        let mut s = self;
        s.codecs.push_aa_codec(codec);
        Ok(s)
    }

    /// Appends a bytes-to-bytes codec to the codecs of the sub-chunks.
    pub fn push_bb_codec(self, codec: crate::codecs::bb::BBCodecType) -> (c: ShardingIndexedCodec)
        ensures
            c.chunk_shape@ == self.chunk_shape@,
            c.codecs.bb_codecs@ == self.codecs.bb_codecs@.push(codec),
            c.codecs.ab_codec == self.codecs.ab_codec,
            c.codecs.aa_codecs == self.codecs.aa_codecs,
    {
        let mut s = self;
        s.codecs.push_bb_codec(codec);
        s
    }

    /// Encodes a chunk as a shard; see [`crate::codecs::encode_shard`].
    pub fn encode(&self, decoded: &crate::ndarr::NDArr) -> (r: Result<Vec<u8>, crate::ZarrError>)
        requires
            crate::codecs::chain_wf(self.codecs, decoded.shape@.len()),
            decoded.wf(),
        ensures
            r matches Ok(v) ==> crate::codecs::ab_encodes_to(
                crate::codecs::ab::ABCodecType::ShardingIndexed(Box::new(*self)),
                v@,
                decoded@,
            ) && crate::codecs::is_shard(
                v@,
                product(crate::codecs::shard_counts(decoded.shape@, self.chunk_shape@)),
            ) && crate::codecs::shard_layout(*self, v@, decoded@),
            r matches Err(e) ==> crate::codecs::ab_encodable(
                crate::codecs::ab::ABCodecType::ShardingIndexed(Box::new(*self)),
                decoded.shape@,
                decoded.data_type,
            ) == Err::<(), crate::ZarrError>(e),
    {
        crate::codecs::encode_shard(self, decoded)
    }

    /// Decodes a shard; see [`crate::codecs::decode_shard`].
    pub fn decode(&self, bytes: &[u8], decoded_repr: &crate::codecs::ArrayRepr) -> (r: Result<
        crate::ndarr::NDArr,
        crate::ZarrError,
    >)
        requires
            crate::codecs::chain_wf(self.codecs, decoded_repr.shape@.len()),
            decoded_repr.wf(),
            decoded_repr.fits(),
        ensures
            r matches Ok(a) ==> a.wf() && crate::codecs::shard_decode(*self, bytes@, decoded_repr@)
                == Ok::<crate::ndarr::ArrayModel, crate::ZarrError>(a@),
            r matches Err(e) ==> crate::codecs::shard_decode(*self, bytes@, decoded_repr@) == Err::<
                crate::ndarr::ArrayModel,
                crate::ZarrError,
            >(e),
    {
        crate::codecs::decode_shard(self, bytes, decoded_repr)
    }
}

} // verus!
