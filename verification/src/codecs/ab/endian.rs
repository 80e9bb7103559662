use vstd::prelude::*;

pub use crate::codecs::ab::bytes_codec::Endian;

verus! {

/// The codec that writes every element in one fixed byte order.
#[derive(Clone, Copy, Debug, PartialEq, Eq, Structural)]
pub struct EndianCodec {
    pub endian: Endian,
}

impl Default for EndianCodec {
    fn default() -> (c: EndianCodec)
        ensures
            c.endian == Endian::Little,
    {
        EndianCodec { endian: Endian::Little }
    }
}

impl EndianCodec {
    pub fn new(endian: Endian) -> (c: EndianCodec)
        ensures
            c.endian == endian,
    {
        EndianCodec { endian }
    }

    pub fn new_big() -> (c: EndianCodec)
        ensures
            c.endian == Endian::Big,
    {
        EndianCodec::new(Endian::Big)
    }

    pub fn new_little() -> (c: EndianCodec)
        ensures
            c.endian == Endian::Little,
    {
        EndianCodec::new(Endian::Little)
    }

    /// A codec in the byte order of this machine.
    pub fn new_native() -> (c: EndianCodec) {
        EndianCodec::new(crate::codecs::ab::bytes_codec::native_endian())
    }

    /// The same codec, as the codec with an optional byte order.
    pub fn to_bytes_codec(&self) -> (c: crate::codecs::ab::bytes_codec::BytesCodec)
        ensures
            c.endian == Some(self.endian),
    {
        crate::codecs::ab::bytes_codec::BytesCodec::new(Some(self.endian))
    }

    /// This codec fixes no number of axes.
    pub fn maybe_ndim(&self) -> (n: Option<usize>)
        ensures
            n.is_none(),
    {
        None
    }
}

} // verus!
