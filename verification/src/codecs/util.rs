use crate::ZarrError;
use vstd::prelude::*;

verus! {

/// A stretch of a sequence of bytes. A position that is not negative
/// counts from the start, a negative one from the end; without an end the
/// stretch goes on to the end of the bytes.
#[derive(Clone, Copy, Debug, PartialEq, Eq, Structural)]
pub struct Interval {
    pub start: isize,
    pub end: Option<isize>,
}

/// A position that lies outside a sequence of bytes.
#[derive(Clone, Copy, Debug, PartialEq, Eq, Structural)]
pub enum OutOfBounds {
    /// The position lies so many bytes before the start.
    BeforeStart(usize),
    /// The position lies behind the end.
    AfterEnd { idx: usize, max_len: usize },
}

impl OutOfBounds {
    pub open spec fn spec_clamp(self) -> usize {
        match self {
            OutOfBounds::BeforeStart(_) => 0,
            OutOfBounds::AfterEnd { idx, max_len } => max_len,
        }
    }

    /// The nearest position that lies within the bytes.
    pub fn clamp(&self) -> (r: usize)
        ensures
            r == self.spec_clamp(),
    {
        match self {
            OutOfBounds::BeforeStart(_) => 0,
            OutOfBounds::AfterEnd { idx, max_len } => *max_len,
        }
    }
}

/// Where the position `idx` lies in `len` bytes, counted from the start;
/// or how it misses them.
pub open spec fn spec_pos_idx(idx: int, len: int) -> Result<usize, OutOfBounds> {
    if idx >= 0 {
        if idx <= len {
            Ok(idx as usize)
        } else {
            Err(OutOfBounds::AfterEnd { idx: idx as usize, max_len: len as usize })
        }
    } else if -idx > len {
        Err(OutOfBounds::BeforeStart((-idx - len) as usize))
    } else {
        Ok((len + idx) as usize)
    }
}

/// The position within `len` bytes that is nearest to `idx`.
pub open spec fn spec_clamped(idx: int, len: int) -> usize {
    match spec_pos_idx(idx, len) {
        Ok(p) => p,
        Err(e) => e.spec_clamp(),
    }
}

/// Where the position `idx` lies in `len` bytes, counted from the start.
pub fn pos_idx(idx: isize, len: usize) -> (r: Result<usize, OutOfBounds>)
    ensures
        r == spec_pos_idx(idx as int, len as int),
        r matches Ok(p) ==> p <= len,
{
    if idx >= 0 {
        let pos_offset = idx as usize;
        if pos_offset <= len {
            return Ok(pos_offset);
        } else {
            return Err(OutOfBounds::AfterEnd { idx: pos_offset, max_len: len });
        }
    }
    // One less than the distance from the end, which always fits.
    let back: usize = (-(idx + 1)) as usize;
    if back >= len {
        return Err(OutOfBounds::BeforeStart(back - len + 1));
    }
    Ok(len - back - 1)
}

/// The position within `len` bytes that is nearest to `idx`.
pub fn clamped_idx(idx: isize, len: usize) -> (r: usize)
    ensures
        r == spec_clamped(idx as int, len as int),
        r <= len,
{
    match pos_idx(idx, len) {
        Ok(p) => p,
        Err(e) => e.clamp(),
    }
}

/// A position in a stream: counted from its start, from its end, or from
/// where the stream stands.
#[derive(Clone, Copy, Debug, PartialEq, Eq, Structural)]
pub enum SeekPos {
    Start(u64),
    End(i64),
    Current(i64),
}

/// The position to seek for: from the end for a negative number, else
/// from the start.
pub fn int_to_seekfrom(i: isize) -> (r: SeekPos)
    ensures
        i < 0 ==> r == SeekPos::End(i as i64),
        i >= 0 ==> r == SeekPos::Start(i as u64),
{
    if i < 0 {
        SeekPos::End(i as i64)
    } else {
        SeekPos::Start(i as u64)
    }
}

impl Interval {
    /// Where the stretch ends in `len` bytes: a position that misses the
    /// bytes is taken for the nearest that does not.
    pub open spec fn spec_end(self, len: usize) -> usize {
        match self.end {
            Some(e) => spec_clamped(e as int, len as int),
            None => len,
        }
    }

    /// Where the stretch starts and ends in `len` bytes.
    pub open spec fn spec_offsets(self, len: usize) -> (usize, usize) {
        (spec_clamped(self.start as int, len as int), self.spec_end(len))
    }

    /// The position to seek for to reach the start of the stretch, and,
    /// for bytes of known length, where the stretch ends.
    pub fn as_seekfrom_nbytes(&self, len: Option<usize>) -> (r: (SeekPos, Option<usize>))
        ensures
            self.start < 0 ==> r.0 == SeekPos::End(self.start as i64),
            self.start >= 0 ==> r.0 == SeekPos::Start(self.start as u64),
            r.1 == match len {
                Some(l) => Some(self.spec_end(l)),
                None => None,
            },
    {
        let end = match len {
            None => None,
            Some(l) => Some(
                match self.end {
                    Some(e) => clamped_idx(e, l),
                    None => l,
                },
            ),
        };
        (int_to_seekfrom(self.start), end)
    }

    /// Where the stretch starts and ends in `len` bytes.
    pub fn as_offsets(&self, len: usize) -> (r: (usize, usize))
        ensures
            r == self.spec_offsets(len),
            r.0 <= len,
            r.1 <= len,
    {
        let start = clamped_idx(self.start, len);
        let end = match self.end {
            Some(e) => clamped_idx(e, len),
            None => len,
        };
        (start, end)
    }
}

/// What can hand out its bytes.
pub trait ByteReader {
    /// The bytes that the reader holds.
    spec fn content(&self) -> Seq<u8>;

    /// All bytes.
    fn read(&self) -> (r: Vec<u8>)
        ensures
            r@ == self.content(),
    ;
}

impl ByteReader for Vec<u8> {
    open spec fn content(&self) -> Seq<u8> {
        self@
    }

    fn read(&self) -> (r: Vec<u8>) {
        self.clone()
    }
}

/// The stretches of the reader's bytes, one for each interval. No
/// interval may end before it starts.
pub fn read_partial<R: ByteReader>(reader: &R, ranges: &[Interval]) -> (r: Vec<Vec<u8>>)
    requires
        forall|i: int|
            0 <= i < ranges@.len() ==> (#[trigger] ranges@[i]).spec_offsets(
                reader.content().len() as usize,
            ).0 <= ranges@[i].spec_offsets(reader.content().len() as usize).1,
    ensures
        r@.len() == ranges@.len(),
        forall|i: int|
            0 <= i < ranges@.len() ==> (#[trigger] r@[i])@ == reader.content().subrange(
                ranges@[i].spec_offsets(reader.content().len() as usize).0 as int,
                ranges@[i].spec_offsets(reader.content().len() as usize).1 as int,
            ),
{
    let all = reader.read();
    let mut out: Vec<Vec<u8>> = Vec::new();
    let mut i: usize = 0;
    while i < ranges.len()
        invariant
            i <= ranges@.len(),
            all@ == reader.content(),
            out@.len() == i,
            forall|j: int|
                0 <= j < ranges@.len() ==> (#[trigger] ranges@[j]).spec_offsets(
                    reader.content().len() as usize,
                ).0 <= ranges@[j].spec_offsets(reader.content().len() as usize).1,
            forall|j: int|
                0 <= j < i ==> (#[trigger] out@[j])@ == reader.content().subrange(
                    ranges@[j].spec_offsets(reader.content().len() as usize).0 as int,
                    ranges@[j].spec_offsets(reader.content().len() as usize).1 as int,
                ),
        decreases ranges@.len() - i,
    {
        let (start, stop) = ranges[i].as_offsets(all.len());
        out.push(crate::codecs::fwrite::copy_range(all.as_slice(), start, stop));
        i += 1;
    }
    out
}

/// The stretch of the reader's bytes that the interval names; an error
/// where the interval ends before it starts.
pub fn partial_read<R: ByteReader>(reader: &R, interval: Interval) -> (r: Result<Vec<u8>, ZarrError>)
    ensures
        ({
            let o = interval.spec_offsets(reader.content().len() as usize);
            &&& o.1 < o.0 ==> r == Err::<Vec<u8>, ZarrError>(ZarrError::OutOfBounds)
            &&& o.0 <= o.1 ==> r is Ok && r->Ok_0@ == reader.content().subrange(
                o.0 as int,
                o.1 as int,
            )
        }),
{
    let whole = reader.read();
    let (start, stop) = interval.as_offsets(whole.len());
    if stop < start {
        Err(ZarrError::OutOfBounds)
    } else {
        Ok(crate::codecs::fwrite::copy_range(whole.as_slice(), start, stop))
    }
}

/// Where a part of a stream ends: at a position of the stream, or after
/// so many bytes.
#[derive(Clone, Copy, Debug, PartialEq, Eq, Structural)]
pub enum SeekEnd {
    SeekFrom(SeekPos),
    NBytes(u64),
}

/// Why a part of a stream cannot be moved in as asked.
#[derive(Clone, Copy, Debug, PartialEq, Eq, Structural)]
pub enum SeekError {
    /// The position lies before the start of the part.
    BeforeStart,
    /// The position does not fit the numbers of the stream.
    Overflow,
}

/// A part of a stream that is read as a stream of its own: it starts
/// `offset` bytes into the stream and is `nbytes` long.
#[derive(Clone, Copy, Debug, PartialEq, Eq, Structural)]
pub struct SubReader {
    pub offset: u64,
    pub nbytes: u64,
}

impl SubReader {
    /// The part ends within the numbers of the stream.
    pub open spec fn wf(&self) -> bool {
        self.offset + self.nbytes <= u64::MAX
    }

    /// The part that starts at `offset` and is `nbytes` long; none where
    /// it would end behind every position of a stream.
    pub fn new(offset: u64, nbytes: u64) -> (r: Option<SubReader>)
        ensures
            r is Some <==> offset + nbytes <= u64::MAX,
            r matches Some(s) ==> s.offset == offset && s.nbytes == nbytes && s.wf(),
    {
        if nbytes > u64::MAX - offset {
            None
        } else {
            Some(SubReader { offset, nbytes })
        }
    }

    /// The part of a stream of `len` bytes that the request names.
    pub fn from_range(len: usize, range: crate::RangeRequest) -> (r: SubReader)
        ensures
            r.wf(),
            r.offset == range.spec_to_range(len as nat).0,
            r.offset + r.nbytes == range.spec_to_range(len as nat).1,
    {
        let (start, end) = range.to_range(len);
        SubReader { offset: start as u64, nbytes: (end - start) as u64 }
    }

    /// Where the part ends in the stream.
    pub fn end_offset(&self) -> (r: u64)
        requires
            self.wf(),
        ensures
            r == self.offset + self.nbytes,
    {
        self.offset + self.nbytes
    }

    /// How many bytes to read from the stream into a buffer of `buf_len`
    /// bytes when the part has been read up to `pos`: no more than the part
    /// has left.
    pub fn read_len(&self, pos: u64, buf_len: usize) -> (r: usize)
        ensures
            pos >= self.nbytes ==> r == 0,
            pos < self.nbytes && buf_len <= self.nbytes - pos ==> r == buf_len,
            pos < self.nbytes && buf_len > self.nbytes - pos ==> r == self.nbytes - pos,
    {
        if pos >= self.nbytes {
            return 0;
        }
        let max_len: u64 = self.nbytes - pos;
        if (buf_len as u64) > max_len {
            max_len as usize
        } else {
            buf_len
        }
    }

    /// Where in the stream to seek for to reach a position of the part,
    /// when the stream stands at `current`.
    pub open spec fn spec_seek(&self, pos: SeekPos, current: u64) -> Result<u64, SeekError> {
        let target: int = match pos {
            SeekPos::Start(o) => self.offset + o,
            SeekPos::End(o) => self.offset + self.nbytes + o,
            SeekPos::Current(o) => current + o,
        };
        if target > u64::MAX {
            Err(SeekError::Overflow)
        } else if target < self.offset {
            Err(SeekError::BeforeStart)
        } else {
            Ok(target as u64)
        }
    }

    /// Where in the stream to seek for to reach a position of the part,
    /// when the stream stands at `current`.
    pub fn seek_target(&self, pos: SeekPos, current: u64) -> (r: Result<u64, SeekError>)
        requires
            self.wf(),
        ensures
            r == self.spec_seek(pos, current),
    {
        match pos {
            SeekPos::Start(o) => {
                if o > u64::MAX - self.offset {
                    Err(SeekError::Overflow)
                } else {
                    Ok(self.offset + o)
                }
            },
            SeekPos::End(o) => offset_by(self.offset + self.nbytes, o, self.offset),
            SeekPos::Current(o) => offset_by(current, o, self.offset),
        }
    }
}

/// The position `by` bytes from `from`, which must not lie before `floor`.
fn offset_by(from: u64, by: i64, floor: u64) -> (r: Result<u64, SeekError>)
    ensures
        from + by > u64::MAX ==> r == Err::<u64, SeekError>(SeekError::Overflow),
        from + by <= u64::MAX && from + by < floor ==> r == Err::<u64, SeekError>(
            SeekError::BeforeStart,
        ),
        floor <= from + by <= u64::MAX ==> r == Ok::<u64, SeekError>((from + by) as u64),
{
    if by >= 0 {
        let up = by as u64;
        if up > u64::MAX - from {
            return Err(SeekError::Overflow);
        }
        let target = from + up;
        if target < floor {
            Err(SeekError::BeforeStart)
        } else {
            Ok(target)
        }
    } else {
        // One less than the distance back, which always fits.
        let back: u64 = (-(by + 1)) as u64;
        if back >= from {
            return Err(SeekError::BeforeStart);
        }
        let target = from - back - 1;
        if target < floor {
            Err(SeekError::BeforeStart)
        } else {
            Ok(target)
        }
    }
}

} // verus!
