use zarr3::codecs::bb::blosc_codec::BloscBuildError;
use zarr3::codecs::bb::blosc_codec::BloscCodec;
use zarr3::codecs::bb::blosc_codec::Clevel;
use zarr3::codecs::bb::blosc_codec::Compressor;
use zarr3::codecs::bb::blosc_codec::ShuffleMode;
use zarr3::codecs::bb::bb_compute_encoded_size;
use zarr3::codecs::bb::bb_decode_all;
use zarr3::codecs::bb::bb_encode_all;
use zarr3::codecs::bb::crc32c_codec::Crc32cCodec;
use zarr3::codecs::bb::gzip_codec::GzipCodec;
use zarr3::codecs::bb::BBCodecType;
use zarr3::codecs::ab::ABCodecType;
use zarr3::codecs::split_outer;
use zarr3::codecs::BloscInside;
use zarr3::codecs::CodecType;
use zarr3::codecs::ListedCodec;

#[test]
fn names_of_compressors() {
    for (c, name) in [
        (Compressor::LZ4, "lz4"),
        (Compressor::LZ4HC, "lz4hc"),
        (Compressor::BloscLZ, "blosclz"),
        (Compressor::Zstd, "zstd"),
        (Compressor::Snappy, "snappy"),
        (Compressor::Zlib, "zlib"),
    ] {
        assert_eq!(c.name(), Some(name));
        assert_eq!(Compressor::from_name(name), Some(c));
    }
    assert_eq!(Compressor::Invalid.name(), None);
    assert_eq!(Compressor::from_name("invalid"), None);
    assert_eq!(Compressor::from_name("LZ4"), None);
    assert_eq!(Compressor::from_name(""), None);
}

#[test]
fn levels_and_shuffle_modes() {
    for n in 0..10u8 {
        assert_eq!(Clevel::try_from_u8(n).unwrap().to_u8(), n);
    }
    assert_eq!(Clevel::try_from_u8(10), None);
    assert_eq!(Clevel::try_from_u8(0), Some(Clevel::L0));
    for (m, name) in [
        (ShuffleMode::NoShuffle, "noshuffle"),
        (ShuffleMode::Byte, "shuffle"),
        (ShuffleMode::Bit, "bitshuffle"),
    ] {
        assert_eq!(m.name(), name);
        assert_eq!(ShuffleMode::from_name(name), Some(m));
    }
    assert_eq!(ShuffleMode::from_name("none"), None);
}

#[test]
fn blosc_configuration_is_checked() {
    let c = BloscCodec {
        cname: Compressor::Zstd,
        clevel: Clevel::L5,
        shuffle: ShuffleMode::Byte,
        blocksize: 0,
        typesize: None,
    };
    assert_eq!(c.validate(true), Err(BloscBuildError::TypesizeNeeded(ShuffleMode::Byte)));
    assert_eq!(c.validate(false), Err(BloscBuildError::UnavailableCompressor(Compressor::Zstd)));
    let with_size = BloscCodec { typesize: Some(4), ..c };
    assert_eq!(with_size.validate(true), Ok(with_size));
    let plain = BloscCodec { shuffle: ShuffleMode::NoShuffle, ..c };
    assert_eq!(plain.validate(true), Ok(plain));
    assert_eq!(BloscBuildError::check_typesize(ShuffleMode::Bit, None).is_err(), true);
    assert_eq!(BloscBuildError::check_typesize(ShuffleMode::Bit, Some(2)), Ok(()));
    assert_eq!(BloscBuildError::check_compressor(Compressor::BloscLZ, true), Ok(()));
    assert_eq!(
        BloscBuildError::check_compressor(Compressor::Invalid, false),
        Err(BloscBuildError::UnavailableCompressor(Compressor::Invalid))
    );
    let c = BloscCodec::for_type(Compressor::BloscLZ, Clevel::L5, ShuffleMode::Byte, 0, 4, true).unwrap();
    assert_eq!(c.typesize, Some(4));
    assert!(BloscCodec::new(Compressor::BloscLZ, Clevel::L1, ShuffleMode::Bit, 0, None, true).is_err());
    assert!(BloscCodec::for_type(Compressor::LZ4, Clevel::L1, ShuffleMode::Bit, 0, 2, false).is_err());
    assert_eq!(BloscCodec::default().compute_encoded_size(Some(10)), None);
}

#[test]
fn bytes_codecs_in_a_row() {
    let codecs = vec![
        BBCodecType::Crc32c(None),
        BBCodecType::Gzip(GzipCodec::default()),
        BBCodecType::Crc32c(Some(Crc32cCodec::default())),
    ];
    let data: Vec<u8> = (0..200u8).collect();
    let enc = bb_encode_all(&codecs, data.clone());
    assert_ne!(enc, data);
    assert_eq!(bb_decode_all(&codecs, enc.clone()), Ok(data.clone()));
    assert_eq!(bb_encode_all(&[], data.clone()), data);
    assert_eq!(bb_decode_all(&[], data.clone()), Ok(data.clone()));
    let mut bad = enc;
    let at = bad.len() - 1;
    bad[at] ^= 0xff;
    assert!(bb_decode_all(&codecs, bad).is_err());
    assert_eq!(bb_compute_encoded_size(&codecs, Some(200)), None);
    assert_eq!(bb_compute_encoded_size(&codecs[..1], Some(200)), Some(204));
    let twice = [BBCodecType::Crc32c(None), BBCodecType::Crc32c(None)];
    assert_eq!(bb_compute_encoded_size(&twice, Some(200)), Some(208));
    assert_eq!(bb_compute_encoded_size(&twice, Some(usize::MAX - 5)), None);
    assert_eq!(bb_compute_encoded_size(&twice, None), None);
}

#[test]
fn blosc_codecs_at_the_end_are_parted() {
    let ab = || ListedCodec::Chain(CodecType::AB(ABCodecType::default()));
    let gz = || ListedCodec::Chain(CodecType::BB(BBCodecType::Gzip(GzipCodec::default())));
    let bl = |level: Clevel| ListedCodec::Blosc(BloscCodec { clevel: level, ..BloscCodec::default() });
    let (inner, outer) = split_outer(vec![ab(), gz(), bl(Clevel::L1), bl(Clevel::L2)]).unwrap();
    assert_eq!(inner.len(), 2);
    assert!(matches!(inner[0], CodecType::AB(_)));
    assert!(matches!(inner[1], CodecType::BB(BBCodecType::Gzip(_))));
    assert_eq!(outer.iter().map(|c| c.clevel).collect::<Vec<_>>(), vec![Clevel::L1, Clevel::L2]);
    let (inner, outer) = split_outer(vec![ab(), gz()]).unwrap();
    assert_eq!((inner.len(), outer.len()), (2, 0));
    let (inner, outer) = split_outer(vec![bl(Clevel::L3)]).unwrap();
    assert_eq!((inner.len(), outer.len()), (0, 1));
    let (inner, outer) = split_outer(vec![]).unwrap();
    assert_eq!((inner.len(), outer.len()), (0, 0));
    assert_eq!(split_outer(vec![ab(), bl(Clevel::L1), gz()]).err(), Some(BloscInside(1)));
    assert_eq!(
        split_outer(vec![bl(Clevel::L1), ab(), bl(Clevel::L1), gz(), bl(Clevel::L1)]).err(),
        Some(BloscInside(2))
    );
}
