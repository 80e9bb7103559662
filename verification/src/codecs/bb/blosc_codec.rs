use vstd::prelude::*;

verus! {

/// The compressors that blosc can use.
#[derive(Clone, Copy, Debug, PartialEq, Eq, Structural)]
pub enum Compressor {
    BloscLZ,
    LZ4,
    LZ4HC,
    Snappy,
    Zlib,
    Zstd,
    Invalid,
}

/// How hard blosc tries.
#[derive(Clone, Copy, Debug, PartialEq, Eq, Structural)]
pub enum Clevel {
    L0,
    L1,
    L2,
    L3,
    L4,
    L5,
    L6,
    L7,
    L8,
    L9,
}

/// How blosc reorders the input before it compresses.
#[derive(Clone, Copy, Debug, PartialEq, Eq, Structural)]
pub enum ShuffleMode {
    NoShuffle,
    Byte,
    Bit,
}

/// Why a blosc configuration cannot be used.
#[derive(Clone, Copy, Debug, PartialEq, Eq, Structural)]
pub enum BloscBuildError {
    /// Shuffling needs the size of the elements.
    TypesizeNeeded(ShuffleMode),
    /// The compressor is not one that can be used.
    UnavailableCompressor(Compressor),
}

impl BloscBuildError {
    /// Shuffling by bytes or bits needs the size of the elements.
    pub fn check_typesize(shuffle: ShuffleMode, typesize: Option<usize>) -> (r: Result<
        (),
        BloscBuildError,
    >)
        ensures
            r == BloscCodec::spec_check_typesize(shuffle, typesize),
    {
        if typesize.is_none() && shuffle != ShuffleMode::NoShuffle {
            Err(BloscBuildError::TypesizeNeeded(shuffle))
        } else {
            Ok(())
        }
    }

    /// The compressor can be used where the blosc library has it, which
    /// the caller has asked the blosc library.
    pub fn check_compressor(cname: Compressor, supported: bool) -> (r: Result<(), BloscBuildError>)
        ensures
            r == BloscCodec::spec_check_compressor(cname, supported),
    {
        if supported {
            Ok(())
        } else {
            Err(BloscBuildError::UnavailableCompressor(cname))
        }
    }
}

impl Compressor {
    /// The name of the compressor in metadata; the invalid one has none.
    pub open spec fn spec_name(self) -> Option<Seq<char>> {
        match self {
            Compressor::LZ4 => Some("lz4"@),
            Compressor::LZ4HC => Some("lz4hc"@),
            Compressor::BloscLZ => Some("blosclz"@),
            Compressor::Zstd => Some("zstd"@),
            Compressor::Snappy => Some("snappy"@),
            Compressor::Zlib => Some("zlib"@),
            Compressor::Invalid => None,
        }
    }

    /// The name of the compressor in metadata; the invalid one has none.
    pub fn name(&self) -> (r: Option<&'static str>)
        ensures
            r is Some <==> self.spec_name() is Some,
            r matches Some(s) ==> self.spec_name() == Some(s@),
    {
        match self {
            Compressor::LZ4 => Some("lz4"),
            Compressor::LZ4HC => Some("lz4hc"),
            Compressor::BloscLZ => Some("blosclz"),
            Compressor::Zstd => Some("zstd"),
            Compressor::Snappy => Some("snappy"),
            Compressor::Zlib => Some("zlib"),
            Compressor::Invalid => None,
        }
    }

    /// The compressor with the given name in metadata.
    pub fn from_name(name: &str) -> (r: Option<Compressor>)
        ensures
            r matches Some(c) ==> c.spec_name() == Some(name@),
            r.is_none() ==> forall|c: Compressor| c.spec_name() != Some(name@),
    {
        let v = crate::text::chars_of(name);
        proof {
            reveal_strlit("lz4");
            reveal_strlit("lz4hc");
            reveal_strlit("blosclz");
            reveal_strlit("zstd");
            reveal_strlit("snappy");
            reveal_strlit("zlib");
        }
        if is_text(v.as_slice(), "lz4") {
            Some(Compressor::LZ4)
        } else if is_text(v.as_slice(), "lz4hc") {
            Some(Compressor::LZ4HC)
        } else if is_text(v.as_slice(), "blosclz") {
            Some(Compressor::BloscLZ)
        } else if is_text(v.as_slice(), "zstd") {
            Some(Compressor::Zstd)
        } else if is_text(v.as_slice(), "snappy") {
            Some(Compressor::Snappy)
        } else if is_text(v.as_slice(), "zlib") {
            Some(Compressor::Zlib)
        } else {
            None
        }
    }
}

fn is_text(v: &[char], want: &str) -> (b: bool)
    ensures
        b == (v@ == want@),
{
    let w = crate::text::chars_of(want);
    crate::text::chars_equal(v, w.as_slice())
}

impl Clevel {
    pub open spec fn spec_u8(self) -> u8 {
        match self {
            Clevel::L0 => 0,
            Clevel::L1 => 1,
            Clevel::L2 => 2,
            Clevel::L3 => 3,
            Clevel::L4 => 4,
            Clevel::L5 => 5,
            Clevel::L6 => 6,
            Clevel::L7 => 7,
            Clevel::L8 => 8,
            Clevel::L9 => 9,
        }
    }

    /// The number of the level in metadata.
    pub fn to_u8(self) -> (n: u8)
        ensures
            n == self.spec_u8(),
    {
        match self {
            Clevel::L0 => 0,
            Clevel::L1 => 1,
            Clevel::L2 => 2,
            Clevel::L3 => 3,
            Clevel::L4 => 4,
            Clevel::L5 => 5,
            Clevel::L6 => 6,
            Clevel::L7 => 7,
            Clevel::L8 => 8,
            Clevel::L9 => 9,
        }
    }

    /// The level with the given number in metadata: 0 to 9.
    pub fn try_from_u8(n: u8) -> (r: Option<Clevel>)
        ensures
            n <= 9 <==> r is Some,
            r matches Some(l) ==> l.spec_u8() == n,
    {
        match n {
            0 => Some(Clevel::L0),
            1 => Some(Clevel::L1),
            2 => Some(Clevel::L2),
            3 => Some(Clevel::L3),
            4 => Some(Clevel::L4),
            5 => Some(Clevel::L5),
            6 => Some(Clevel::L6),
            7 => Some(Clevel::L7),
            8 => Some(Clevel::L8),
            9 => Some(Clevel::L9),
            _ => None,
        }
    }
}

impl ShuffleMode {
    /// The name of the mode in metadata.
    pub open spec fn spec_name(self) -> Seq<char> {
        match self {
            ShuffleMode::NoShuffle => "noshuffle"@,
            ShuffleMode::Byte => "shuffle"@,
            ShuffleMode::Bit => "bitshuffle"@,
        }
    }

    /// The name of the mode in metadata.
    pub fn name(&self) -> (s: &'static str)
        ensures
            s@ == self.spec_name(),
    {
        match self {
            ShuffleMode::NoShuffle => "noshuffle",
            ShuffleMode::Byte => "shuffle",
            ShuffleMode::Bit => "bitshuffle",
        }
    }

    /// The mode with the given name in metadata.
    pub fn from_name(name: &str) -> (r: Option<ShuffleMode>)
        ensures
            r matches Some(m) ==> m.spec_name() == name@,
            r.is_none() ==> forall|m: ShuffleMode| m.spec_name() != name@,
    {
        let v = crate::text::chars_of(name);
        proof {
            reveal_strlit("noshuffle");
            reveal_strlit("shuffle");
            reveal_strlit("bitshuffle");
        }
        if is_text(v.as_slice(), "noshuffle") {
            Some(ShuffleMode::NoShuffle)
        } else if is_text(v.as_slice(), "shuffle") {
            Some(ShuffleMode::Byte)
        } else if is_text(v.as_slice(), "bitshuffle") {
            Some(ShuffleMode::Bit)
        } else {
            None
        }
    }
}

/// Configuration of the blosc codec. With `blocksize` 0 blosc picks the
/// size of its blocks itself.
#[derive(Clone, Copy, Debug, PartialEq, Eq, Structural)]
pub struct BloscCodec {
    pub cname: Compressor,
    pub clevel: Clevel,
    pub shuffle: ShuffleMode,
    pub blocksize: usize,
    pub typesize: Option<usize>,
}

impl Default for BloscCodec {
    fn default() -> (c: BloscCodec)
        ensures
            c == (BloscCodec {
                cname: Compressor::BloscLZ,
                clevel: Clevel::L0,
                shuffle: ShuffleMode::NoShuffle,
                blocksize: 0,
                typesize: None,
            }),
    {
        BloscCodec {
            cname: Compressor::BloscLZ,
            clevel: Clevel::L0,
            shuffle: ShuffleMode::NoShuffle,
            blocksize: 0,
            typesize: None,
        }
    }
}

impl BloscCodec {
    pub open spec fn spec_check_typesize(shuffle: ShuffleMode, typesize: Option<usize>) -> Result<
        (),
        BloscBuildError,
    > {
        if typesize.is_none() && shuffle != ShuffleMode::NoShuffle {
            Err(BloscBuildError::TypesizeNeeded(shuffle))
        } else {
            Ok(())
        }
    }

    /// The compressor can be used where the blosc library has it.
    pub open spec fn spec_check_compressor(cname: Compressor, supported: bool) -> Result<
        (),
        BloscBuildError,
    > {
        if supported {
            Ok(())
        } else {
            Err(BloscBuildError::UnavailableCompressor(cname))
        }
    }

    /// Whether the configuration can be used, given whether the blosc
    /// library has the compressor: first the compressor is checked, then
    /// the size of the elements.
    pub open spec fn spec_validate(self, supported: bool) -> Result<BloscCodec, BloscBuildError> {
        match Self::spec_check_compressor(self.cname, supported) {
            Err(e) => Err(e),
            Ok(()) => match Self::spec_check_typesize(self.shuffle, self.typesize) {
                Err(e) => Err(e),
                Ok(()) => Ok(self),
            },
        }
    }

    /// The configuration with the given values, where the blosc library
    /// has the compressor, as the caller has asked it, and shuffling has
    /// the size of the elements.
    pub fn new(
        cname: Compressor,
        clevel: Clevel,
        shuffle: ShuffleMode,
        blocksize: usize,
        typesize: Option<usize>,
        supported: bool,
    ) -> (r: Result<BloscCodec, BloscBuildError>)
        ensures
            r == (BloscCodec { cname, clevel, shuffle, blocksize, typesize }).spec_validate(
                supported,
            ),
    {
        let codec = BloscCodec { cname, clevel, shuffle, blocksize, typesize };
        codec.validate(supported)
    }

    /// The configuration for elements of `typesize` bytes.
    pub fn for_type(
        cname: Compressor,
        clevel: Clevel,
        shuffle: ShuffleMode,
        blocksize: usize,
        typesize: usize,
        supported: bool,
    ) -> (r: Result<BloscCodec, BloscBuildError>)
        ensures
            supported ==> r == Ok::<BloscCodec, BloscBuildError>(
                BloscCodec { cname, clevel, shuffle, blocksize, typesize: Some(typesize) },
            ),
            !supported ==> r == Err::<BloscCodec, BloscBuildError>(
                BloscBuildError::UnavailableCompressor(cname),
            ),
    {
        BloscCodec::new(cname, clevel, shuffle, blocksize, Some(typesize), supported)
    }

    /// Checks the configuration: the blosc library must have the
    /// compressor, as the caller has asked it, and shuffling needs the size
    /// of the elements.
    pub fn validate(self, supported: bool) -> (r: Result<BloscCodec, BloscBuildError>)
        ensures
            r == self.spec_validate(supported),
    {
        match BloscBuildError::check_compressor(self.cname, supported) {
            Err(e) => {
                return Err(e);
            },
            Ok(()) => {},
        }
        match BloscBuildError::check_typesize(self.shuffle, self.typesize) {
            Err(e) => Err(e),
            Ok(()) => Ok(self),
        }
    }

    /// The size of the encoded bytes cannot be told in advance.
    pub fn compute_encoded_size(&self, _input_size: Option<usize>) -> (r: Option<usize>)
        ensures
            r.is_none(),
    {
        None
    }
}

} // verus!
