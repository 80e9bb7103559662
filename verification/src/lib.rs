//! Chunked, compressed, N-dimensional arrays in the Zarr v3 storage model.
//!
//! The crate holds the geometry that maps array regions to chunks, the codec
//! pipeline that turns a chunk into bytes and back, and the array operations
//! that bind both to a key-value store.

pub mod chunk_arr;
pub mod chunk_grid;
pub mod chunk_key_encoding;
pub mod codecs;
pub mod coord;
pub mod data_type;
pub mod json;
pub mod ndarr;
pub mod node;
pub mod prelude;
pub mod store;
pub mod text;
pub mod util;

use vstd::prelude::*;

verus! {

/// Version of the storage format that this crate reads and writes.
pub const ZARR_FORMAT: usize = 3;

/// What can go wrong when arrays are read, written or described.
#[derive(Clone, Copy, Debug, PartialEq, Eq, Structural)]
pub enum ZarrError {
    /// The store failed.
    StoreIo,
    /// The metadata of a node is missing.
    NotFound,
    /// A codec, chunk grid, region or coordinate has another number of
    /// axes than the array.
    DimensionMismatch,
    /// A chunk index lies beyond the grid.
    OutOfBounds,
    /// Metadata breaks a rule of the format.
    InvalidMetadata,
    /// Stored bytes do not match their checksum.
    ChecksumFailure,
    /// A codec rejects its input.
    DecodeFailure,
    /// Codecs stand in an order that the format does not allow.
    InvalidCodecChain,
}

/// A part of a string of bytes: `size` bytes from `offset` on, or all bytes
/// from `offset` on where no size is given; or the last bytes.
#[derive(Clone, Copy, Debug, PartialEq, Eq, Structural)]
pub enum RangeRequest {
    Range { offset: usize, size: Option<usize> },
    Suffix(usize),
}

impl Default for RangeRequest {
    fn default() -> (r: RangeRequest)
        ensures
            r == (RangeRequest::Range { offset: 0, size: None }),
    {
        RangeRequest::Range { offset: 0, size: None }
    }
}

impl RangeRequest {
    /// Where the part starts and ends in a string of `len` bytes: a part
    /// that reaches beyond the string is cut off at its end.
    pub open spec fn spec_to_range(self, len: nat) -> (nat, nat) {
        match self {
            RangeRequest::Range { offset, size } => {
                let start = if offset <= len {
                    offset as nat
                } else {
                    len
                };
                match size {
                    Some(s) => (
                        start,
                        if offset + s <= len {
                            (offset + s) as nat
                        } else {
                            len
                        },
                    ),
                    None => (start, len),
                }
            },
            RangeRequest::Suffix(s) => if len < s {
                (0, len)
            } else {
                ((len - s) as nat, len)
            },
        }
    }

    /// The part of `bytes`.
    pub open spec fn spec_slice<T>(self, bytes: Seq<T>) -> Seq<T> {
        bytes.subrange(
            self.spec_to_range(bytes.len()).0 as int,
            self.spec_to_range(bytes.len()).1 as int,
        )
    }

    pub fn new_range(offset: usize, size: Option<usize>) -> (r: RangeRequest)
        ensures
            r == (RangeRequest::Range { offset, size }),
    {
        RangeRequest::Range { offset, size }
    }

    /// Where the part starts in a string of `len` bytes, where this can be
    /// told.
    pub fn start(&self, len: Option<usize>) -> (r: Option<usize>)
        requires
            *self matches RangeRequest::Suffix(s) ==> (len matches Some(l) ==> s <= l),
        ensures
            r == match *self {
                RangeRequest::Range { offset, size } => Some(offset),
                RangeRequest::Suffix(s) => match len {
                    Some(l) => Some((l - s) as usize),
                    None => None,
                },
            },
    {
        match self {
            RangeRequest::Range { offset, size } => Some(*offset),
            RangeRequest::Suffix(s) => match len {
                Some(l) => Some(l - *s),
                None => None,
            },
        }
    }

    /// Where the part ends in a string of `len` bytes, where this can be
    /// told: a part without a size goes on to the end of the string.
    pub fn end(&self, len: Option<usize>) -> (r: Option<usize>)
        requires
            *self matches RangeRequest::Range { offset, size: Some(s) } ==> offset + s <= usize::MAX,
        ensures
            r == match *self {
                RangeRequest::Range { offset, size } => match size {
                    Some(s) => Some((offset + s) as usize),
                    None => len,
                },
                RangeRequest::Suffix(s) => len,
            },
    {
        match self {
            RangeRequest::Range { offset, size } => match size {
                Some(s) => Some(*offset + *s),
                None => len,
            },
            RangeRequest::Suffix(s) => len,
        }
    }

    /// Where the part starts and ends in a string of `len` bytes.
    pub fn to_range(&self, len: usize) -> (r: (usize, usize))
        ensures
            r.0 == self.spec_to_range(len as nat).0,
            r.1 == self.spec_to_range(len as nat).1,
            r.0 <= r.1 <= len,
    {
        match self {
            RangeRequest::Range { offset, size } => {
                let start: usize = if *offset <= len {
                    *offset
                } else {
                    len
                };
                match size {
                    Some(s) => {
                        if *s <= len - start && *offset <= len {
                            (start, start + *s)
                        } else {
                            (start, len)
                        }
                    },
                    None => (start, len),
                }
            },
            RangeRequest::Suffix(s) => {
                if len < *s {
                    (0, len)
                } else {
                    (len - *s, len)
                }
            },
        }
    }

    /// The part of `sl`.
    pub fn slice<'a, T>(&self, sl: &'a [T]) -> (r: &'a [T])
        ensures
            r@ == self.spec_slice(sl@),
    {
        let (start, end) = self.to_range(sl.len());
        vstd::slice::slice_subrange(sl, start, end)
    }

    /// The part of `sl`, as bytes of their own.
    pub fn slice_bytes(&self, sl: &[u8]) -> (r: Vec<u8>)
        ensures
            r@ == self.spec_slice(sl@),
    {
        let (start, end) = self.to_range(sl.len());
        crate::codecs::fwrite::copy_range(sl, start, end)
    }

    /// Changes the part of the bytes in place: it gets the given values,
    /// which must be as many as the part is long. The bytes before and
    /// behind the part stay.
    pub fn slice_mut(&self, sl: &mut Vec<u8>, values: &[u8])
        requires
            values@.len() == self.spec_to_range(old(sl)@.len()).1 - self.spec_to_range(
                old(sl)@.len(),
            ).0,
        ensures
            final(sl)@.len() == old(sl)@.len(),
            final(sl)@ == old(sl)@.take(self.spec_to_range(old(sl)@.len()).0 as int) + values@
                + old(sl)@.skip(self.spec_to_range(old(sl)@.len()).1 as int),
            self.spec_slice(final(sl)@) == values@,
    {
        let len = sl.len();
        let (a, b) = self.to_range(len);
        let ghost before = sl@;
        let mut i: usize = 0;
        while i < b - a
            invariant
                a <= b <= len,
                i <= b - a,
                values@.len() == b - a,
                sl@.len() == len,
                before.len() == len,
                sl@ == before.take(a as int) + values@.take(i as int) + before.skip(a + i),
            decreases b - a - i,
        {
            sl.set(a + i, values[i]);
            assert(sl@ =~= before.take(a as int) + values@.take(i + 1) + before.skip(a + i + 1));
            i += 1;
        }
        assert(values@.take((b - a) as int) =~= values@);
        assert(sl@.subrange(a as int, b as int) =~= values@);
    }

    /// The text of the part in a request for ranges of bytes.
    pub fn to_string(&self) -> (s: String)
        requires
            *self matches RangeRequest::Range { offset, size: Some(sz) } ==> offset + sz <= usize::MAX,
        ensures
            s@ == match *self {
                RangeRequest::Range { offset, size: Some(sz) } => crate::text::decimal(
                    offset as nat,
                ) + seq!['-'] + crate::text::decimal((offset + sz) as nat),
                RangeRequest::Range { offset, size: None } => crate::text::decimal(offset as nat)
                    + seq!['-'],
                RangeRequest::Suffix(n) => seq!['-'] + crate::text::decimal(n as nat),
            },
    {
        let mut out: Vec<char> = Vec::new();
        match self {
            RangeRequest::Range { offset, size } => {
                let o = crate::text::decimal_chars(*offset as u64);
                crate::text::append_chars(&mut out, o.as_slice());
                out.push('-');
                match size {
                    Some(sz) => {
                        let e = crate::text::decimal_chars((*offset + *sz) as u64);
                        crate::text::append_chars(&mut out, e.as_slice());
                        assert(out@ =~= crate::text::decimal(*offset as nat) + seq!['-']
                            + crate::text::decimal((*offset + *sz) as nat));
                    },
                    None => {
                        assert(out@ =~= crate::text::decimal(*offset as nat) + seq!['-']);
                    },
                }
            },
            RangeRequest::Suffix(n) => {
                out.push('-');
                let e = crate::text::decimal_chars(*n as u64);
                crate::text::append_chars(&mut out, e.as_slice());
                assert(out@ =~= seq!['-'] + crate::text::decimal(*n as nat));
            },
        }
        crate::text::string_from_chars(out.as_slice())
    }
}

/// Two numbers of axes that should agree and do not.
#[derive(Clone, Copy, Debug, PartialEq, Eq, Structural)]
pub enum NdimError {
    Inconsistent,
}

/// What has a number of axes.
pub trait Ndim {
    spec fn spec_ndim(&self) -> nat;

    /// Number of axes.
    fn ndim(&self) -> (n: usize)
        ensures
            n == self.spec_ndim(),
    ;
}

/// What may fix a number of axes.
pub trait MaybeNdim {
    spec fn spec_maybe_ndim(&self) -> Option<nat>;

    /// Number of axes, where it is fixed.
    fn maybe_ndim(&self) -> (n: Option<usize>)
        ensures
            n matches Some(x) ==> self.spec_maybe_ndim() == Some(x as nat),
            n.is_none() ==> self.spec_maybe_ndim().is_none(),
    ;
}

/// What two optional numbers of axes say together: an error where both
/// are given and differ, else the one that is given, if any.
pub open spec fn spec_union_ndim(a: Option<nat>, b: Option<nat>) -> Result<Option<nat>, NdimError> {
    match (a, b) {
        (Some(x), Some(y)) => if x == y {
            Ok(Some(x))
        } else {
            Err(NdimError::Inconsistent)
        },
        (Some(x), None) => Ok(Some(x)),
        (None, y) => Ok(y),
    }
}

/// The common number of axes of both, or an error where they differ.
pub fn same_ndim<A: Ndim, B: Ndim>(a: &A, b: &B) -> (r: Result<usize, NdimError>)
    ensures
        a.spec_ndim() == b.spec_ndim() ==> r == Ok::<usize, NdimError>(a.spec_ndim() as usize),
        a.spec_ndim() != b.spec_ndim() ==> r == Err::<usize, NdimError>(NdimError::Inconsistent),
{
    let n = a.ndim();
    if n == b.ndim() {
        Ok(n)
    } else {
        Err(NdimError::Inconsistent)
    }
}

/// What both say together of the number of axes.
pub fn union_ndim<A: MaybeNdim, B: MaybeNdim>(a: &A, b: &B) -> (r: Result<Option<usize>, NdimError>)
    ensures
        r matches Ok(Some(x)) ==> spec_union_ndim(a.spec_maybe_ndim(), b.spec_maybe_ndim()) == Ok::<
            Option<nat>,
            NdimError,
        >(Some(x as nat)),
        r matches Ok(None) ==> spec_union_ndim(a.spec_maybe_ndim(), b.spec_maybe_ndim()) == Ok::<
            Option<nat>,
            NdimError,
        >(None),
        r matches Err(e) ==> spec_union_ndim(a.spec_maybe_ndim(), b.spec_maybe_ndim()) == Err::<
            Option<nat>,
            NdimError,
        >(e),
{
    match a.maybe_ndim() {
        Some(n1) => match b.maybe_ndim() {
            Some(n2) => {
                if n1 == n2 {
                    Ok(Some(n1))
                } else {
                    Err(NdimError::Inconsistent)
                }
            },
            None => Ok(Some(n1)),
        },
        None => Ok(b.maybe_ndim()),
    }
}

} // verus!
