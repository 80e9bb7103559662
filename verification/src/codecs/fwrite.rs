use vstd::prelude::*;

verus! {

/// A sink for bytes that may have to add a trailer, such as a checksum,
/// when all bytes are written.
pub trait FinalWrite {
    /// The bytes that have reached the sink.
    spec fn sink(&self) -> Seq<u8>;

    /// Writes all of `buf`.
    fn write(&mut self, buf: &[u8])
        ensures
            final(self).sink() == old(self).sink() + buf@,
    ;

    /// Writes the trailer, if there is one, and says how many bytes it has.
    fn finalize(&mut self) -> (n: usize)
        ensures
            final(self).sink().len() == old(self).sink().len() + n,
            final(self).sink().take(old(self).sink().len() as int) == old(self).sink(),
    ;
}

/// A sink without a trailer.
pub struct FinalWriter(pub Vec<u8>);

impl FinalWriter {
    /// The sink that starts with the bytes of `value`.
    pub fn from(value: Vec<u8>) -> (w: FinalWriter)
        ensures
            w.0@ == value@,
    {
        FinalWriter(value)
    }
}

impl FinalWrite for FinalWriter {
    open spec fn sink(&self) -> Seq<u8> {
        self.0@
    }

    fn write(&mut self, buf: &[u8]) {
        append_bytes(&mut self.0, buf);
    }

    fn finalize(&mut self) -> (n: usize) {
        assert(self.0@.take(self.0@.len() as int) =~= self.0@);
        0
    }
}

/// Appends the bytes of `src` to `dst`.
pub fn append_bytes(dst: &mut Vec<u8>, src: &[u8])
    ensures
        final(dst)@ == old(dst)@ + src@,
{
    let ghost before = dst@;
    let mut i: usize = 0;
    while i < src.len()
        invariant
            i <= src@.len(),
            dst@ == before + src@.take(i as int),
        decreases src@.len() - i,
    {
        dst.push(src[i]);
        i += 1;
        assert(dst@ =~= before + src@.take(i as int));
    }
    assert(src@.take(src@.len() as int) =~= src@);
}

/// The bytes of `src` from `from` up to `to`, as a vector of their own.
pub fn copy_range(src: &[u8], from: usize, to: usize) -> (out: Vec<u8>)
    requires
        from <= to <= src@.len(),
    ensures
        out@ == src@.subrange(from as int, to as int),
{
    let mut out: Vec<u8> = Vec::new();
    let mut i: usize = from;
    while i < to
        invariant
            from <= i <= to,
            to <= src@.len(),
            out@ == src@.subrange(from as int, i as int),
        decreases to - i,
    {
        out.push(src[i]);
        i += 1;
        assert(out@ =~= src@.subrange(from as int, i as int));
    }
    out
}

} // verus!
