use zarr3::codecs::aa::transpose::PermutationError;
use zarr3::codecs::aa::transpose::TransposeCodec;
use zarr3::codecs::aa::AACodecType;
use zarr3::codecs::ab::bytes_codec::BytesCodec;
use zarr3::codecs::ab::bytes_codec::Endian;
use zarr3::codecs::ab::endian::EndianCodec;
use zarr3::codecs::ab::sharding_indexed::ChunkAddress;
use zarr3::codecs::ab::sharding_indexed::ShardingIndexedCodec;
use zarr3::codecs::ab::ABCodecType;
use zarr3::codecs::bb::crc32c_codec::validate_crc32c;
use zarr3::codecs::bb::crc32c_codec::Crc32cCodec;
use zarr3::codecs::bb::crc32c_codec::Crc32cReader;
use zarr3::codecs::bb::crc32c_codec::Crc32cWriter;
use zarr3::codecs::bb::gzip_codec::GzipCodec;
use zarr3::codecs::bb::gzip_codec::GzipLevel;
use zarr3::codecs::bb::BBCodec;
use zarr3::codecs::bb::BBCodecType;
use zarr3::codecs::fwrite::FinalWrite;
use zarr3::codecs::ArrayRepr;
use zarr3::codecs::CodecChain;
use zarr3::codecs::CodecChainConstructionError;
use zarr3::codecs::CodecKind;
use zarr3::codecs::CodecType;
use zarr3::coord::GridCoord;
use zarr3::data_type::ComplexSize;
use zarr3::data_type::DataType;
use zarr3::data_type::FloatSize;
use zarr3::data_type::IntSize;
use zarr3::data_type::NBytes;
use zarr3::ndarr::NDArr;
use zarr3::ZarrError;

const SHAPE: [u64; 3] = [3, 4, 5];

const TEST_STRING: &[u8] =
    b"This is a very long string which is used to test the CRC-32-Castagnoli function.";

fn checksum() -> [u8; 4] {
    0x20_CB_1E_59_u32.to_le_bytes()
}

fn u8_arr() -> NDArr {
    NDArr::from_bytes(&SHAPE, DataType::UInt(IntSize::b8), (0..60).collect()).unwrap()
}

fn f64_arr() -> NDArr {
    let bytes: Vec<u8> = (0..60).flat_map(|v| (v as f64).to_le_bytes()).collect();
    NDArr::from_bytes(&SHAPE, DataType::Float(FloatSize::b64), bytes).unwrap()
}

fn i32_arr() -> NDArr {
    let bytes: Vec<u8> = (0..50 * 60).flat_map(|v: i32| v.to_le_bytes()).collect();
    NDArr::from_bytes(&[50, 60], DataType::Int(IntSize::b32), bytes).unwrap()
}

fn same(a: &NDArr, b: &NDArr) -> bool {
    a.shape == b.shape && a.data_type == b.data_type && a.elems.bytes == b.elems.bytes
}

fn f64_repr() -> ArrayRepr {
    ArrayRepr::new(&SHAPE, DataType::Float(FloatSize::b64), 0.0f64.to_le_bytes().to_vec())
}

fn i32_repr() -> ArrayRepr {
    ArrayRepr::new(&[50, 60], DataType::Int(IntSize::b32), 0i32.to_le_bytes().to_vec())
}

#[test]
fn transpose_permutation() {
    let orig = u8_arr();
    let perm: Vec<usize> = vec![2, 0, 1];
    let t = TransposeCodec::new(perm.clone()).unwrap();
    let encoded = t.encode(&orig);
    let expected_shape: Vec<u64> = perm.iter().map(|idx| SHAPE[*idx]).collect();
    assert_eq!(encoded.shape, expected_shape);
    let decoded = t.decode(&encoded);
    assert_eq!(decoded.shape, orig.shape);
    assert!(same(&decoded, &orig));
    // Axis d of the encoded chunk is axis perm[d] of the chunk.
    for i0 in 0..3u64 {
        for i1 in 0..4u64 {
            for i2 in 0..5u64 {
                let from = (i0 * 4 + i1) * 5 + i2;
                let to = (i2 * 3 + i0) * 4 + i1;
                assert_eq!(encoded.elems.bytes[to as usize], orig.elems.bytes[from as usize]);
            }
        }
    }
}

#[test]
fn transpose() {
    let t = TransposeCodec::new_transpose(3);
    assert_eq!(t.order.as_slice(), &[2, 1, 0])
}

#[test]
fn transpose_rejects_what_is_no_permutation() {
    assert!(matches!(TransposeCodec::new(vec![0, 1, 3]), Err(PermutationError::SkipsElements)));
    assert!(matches!(TransposeCodec::new(vec![0, 1, 1]), Err(PermutationError::RepeatedElements)));
    assert!(matches!(TransposeCodec::new(vec![5, 5]), Err(PermutationError::SkipsElements)));
    assert!(TransposeCodec::new(vec![]).is_ok());
    assert!(TransposeCodec::new(vec![1, 0]).unwrap().validate().is_ok());
}

#[test]
fn transpose_twice_with_the_reversal_is_identity() {
    let orig = u8_arr();
    let t = TransposeCodec::new_transpose(3);
    let once = t.encode(&orig);
    assert_eq!(once.shape, vec![5, 4, 3]);
    assert!(!same(&once, &orig));
    let twice = t.encode(&once);
    assert!(same(&twice, &orig));
}

#[test]
fn bytes_codec_can_validate_endian() {
    let ab = BytesCodec::new_big();
    ab.valid_endian(&DataType::Float(FloatSize::b32)).unwrap();
    ab.valid_endian(&DataType::UInt(IntSize::b8)).unwrap();
}

#[test]
fn can_invalidate_endian() {
    let ab = BytesCodec::new(None);
    ab.valid_endian(&DataType::UInt(IntSize::b8)).unwrap();
    ab.valid_endian(&DataType::Raw(32)).unwrap();
    assert!(ab.valid_endian(&DataType::Float(FloatSize::b32)).is_err());
}

#[test]
fn mod_can_validate_endian() {
    let ab = ABCodecType::default();
    ab.valid_endian(&DataType::Float(FloatSize::b32)).unwrap();
    ab.valid_endian(&DataType::UInt(IntSize::b8)).unwrap();
}

#[test]
fn can_validate_endian() {
    for dt in vec![
        DataType::Bool,
        DataType::UInt(IntSize::b8),
        DataType::Int(IntSize::b8),
        DataType::Raw(1),
        DataType::Raw(2),
        DataType::Raw(4),
    ] {
        for e in vec![Endian::Little, Endian::Big] {
            dt.valid_endian(Some(e)).unwrap();
        }
        dt.valid_endian(None).unwrap();
    }

    for dt in vec![
        DataType::UInt(IntSize::b16),
        DataType::Int(IntSize::b32),
        DataType::Float(FloatSize::b32),
        DataType::Complex(ComplexSize::b64),
    ] {
        for e in vec![Endian::Little, Endian::Big] {
            dt.valid_endian(Some(e)).unwrap();
        }
        assert!(dt.valid_endian(None).is_err());
    }
}

#[test]
fn bytes_codec_orders_the_bytes_of_every_number() {
    let bytes: Vec<u8> = [1i32, 258].iter().flat_map(|v| v.to_le_bytes()).collect();
    let a = NDArr::from_bytes(&[2], DataType::Int(IntSize::b32), bytes.clone()).unwrap();
    let big = BytesCodec::new_big().encode(&a).unwrap();
    assert_eq!(big, vec![0, 0, 0, 1, 0, 0, 1, 2]);
    let little = BytesCodec::new_little().encode(&a).unwrap();
    assert_eq!(little, vec![1, 0, 0, 0, 2, 1, 0, 0]);
    assert_eq!(BytesCodec::new(None).encode(&a), Err(ZarrError::DecodeFailure));
    let repr = ArrayRepr::new(&[2], DataType::Int(IntSize::b32), vec![0; 4]);
    let back = BytesCodec::new_big().decode(big, &repr).unwrap();
    assert_eq!(back.elems.bytes, bytes);
    // A complex number is two numbers, each with bytes of its own.
    let c = NDArr::from_bytes(&[1], DataType::Complex(ComplexSize::b64), vec![1, 2, 3, 4, 5, 6, 7, 8])
        .unwrap();
    assert_eq!(BytesCodec::new_big().encode(&c).unwrap(), vec![4, 3, 2, 1, 8, 7, 6, 5]);
    assert!(BytesCodec::new_big().decode(vec![0; 7], &repr).is_err());
    assert_eq!(BytesCodec::new_big().compute_encoded_size(&repr), Some(8));
}

#[test]
fn endian_codec_is_a_bytes_codec() {
    assert_eq!(EndianCodec::new_big().to_bytes_codec().endian(), Some(Endian::Big));
    assert_eq!(EndianCodec::new_little().to_bytes_codec().endian(), Some(Endian::Little));
    assert_eq!(EndianCodec::new(Endian::Big).endian, Endian::Big);
}

#[test]
fn roundtrip_shard_simple() {
    let codec = ShardingIndexedCodec::new(GridCoord::from_slice(&[10, 20]));
    let arr = i32_arr();
    let buf = codec.encode(&arr).unwrap();
    let arr2 = codec.decode(&buf, &i32_repr()).unwrap();
    assert!(same(&arr, &arr2));
}

#[test]
fn roundtrip_shard_complex() {
    let codec = ShardingIndexedCodec::new(GridCoord::from_slice(&[10, 20]))
        .push_aa_codec(AACodecType::Transpose(TransposeCodec::new_transpose(2)))
        .unwrap()
        .ab_codec(ABCodecType::Bytes(EndianCodec::new_big().to_bytes_codec()))
        .unwrap()
        .push_bb_codec(BBCodecType::Gzip(GzipCodec::default()));
    let arr = i32_arr();
    let buf = codec.encode(&arr).unwrap();
    let arr2 = codec.decode(&buf, &i32_repr()).unwrap();
    assert!(same(&arr, &arr2));
}

#[test]
fn shard_ends_with_its_index_and_checksum() {
    let codec = ShardingIndexedCodec::new(GridCoord::from_slice(&[10, 20]));
    let arr = i32_arr();
    let buf = codec.encode(&arr).unwrap();
    let n = 5 * 3;
    let sub = 10 * 20 * 4;
    assert_eq!(buf.len(), n * sub + 16 * n + 4);
    let index = &buf[n * sub..n * sub + 16 * n];
    for k in 0..n {
        let a = ChunkAddress::from_reader(&index[16 * k..16 * k + 16]).unwrap();
        assert_eq!(a.offset, (k * sub) as u64);
        assert_eq!(a.nbytes, sub as u64);
    }
    let crc = crc32c::crc32c(index);
    assert_eq!(&buf[buf.len() - 4..], &crc.to_le_bytes());
    assert_eq!(codec.n_chunks(&[50, 60]).unwrap(), vec![5, 3]);
    assert!(codec.n_chunks(&[50, 70]).is_err());
}

#[test]
fn shard_leaves_out_what_is_all_fill() {
    let codec = ShardingIndexedCodec::new(GridCoord::from_slice(&[2, 2]));
    let mut vals = vec![0i32; 16];
    vals[0] = 7;
    vals[15] = 9;
    let bytes: Vec<u8> = vals.iter().flat_map(|v| v.to_le_bytes()).collect();
    let arr = NDArr::from_bytes(&[4, 4], DataType::Int(IntSize::b32), bytes).unwrap();
    let repr = ArrayRepr::new(&[4, 4], DataType::Int(IntSize::b32), vec![0; 4]);
    let buf = codec.encode(&arr).unwrap();
    let back = codec.decode(&buf, &repr).unwrap();
    assert!(same(&arr, &back));
    // An address of all ones stands for a sub-chunk that is not stored;
    // such a sub-chunk decodes to the fill value, whatever the shard holds.
    let n = 4;
    let mut footer: Vec<u8> = Vec::new();
    for _ in 0..n {
        ChunkAddress::empty().write_to(&mut footer);
    }
    assert_eq!(footer, vec![0xff; 16 * n]);
    let crc = crc32c::crc32c(&footer);
    footer.extend_from_slice(&crc.to_le_bytes());
    let repr9 = ArrayRepr::new(&[4, 4], DataType::Int(IntSize::b32), 9i32.to_le_bytes().to_vec());
    let filled = codec.decode(&footer, &repr9).unwrap();
    assert!(filled.all_equal_to(&9i32.to_le_bytes()));
}

#[test]
fn shard_with_a_damaged_index_is_refused() {
    let codec = ShardingIndexedCodec::new(GridCoord::from_slice(&[10, 20]));
    let mut buf = codec.encode(&i32_arr()).unwrap();
    let at = buf.len() - 10;
    buf[at] ^= 1;
    assert_eq!(codec.decode(&buf, &i32_repr()).err(), Some(ZarrError::ChecksumFailure));
    assert!(codec.decode(&[1, 2, 3], &i32_repr()).is_err());
}

#[test]
fn shard_in_a_shard() {
    let inner = ShardingIndexedCodec::new(GridCoord::from_slice(&[5, 10]))
        .push_bb_codec(BBCodecType::Crc32c(Some(Crc32cCodec::default())));
    let outer = ShardingIndexedCodec::new(GridCoord::from_slice(&[10, 20]))
        .ab_codec(ABCodecType::from_sharding(inner))
        .unwrap();
    let arr = i32_arr();
    let buf = outer.encode(&arr).unwrap();
    let back = outer.decode(&buf, &i32_repr()).unwrap();
    assert!(same(&arr, &back));
}

#[test]
fn can_validate() {
    let mut buf = Vec::default();
    buf.extend_from_slice(TEST_STRING);
    buf.extend_from_slice(&checksum());
    let out = validate_crc32c(buf.as_slice()).unwrap();
    assert_eq!(out, TEST_STRING);

    // change the checksum value
    let last = buf.pop().unwrap();
    buf.push(last.wrapping_add(1));
    assert!(validate_crc32c(buf.as_slice()).is_err())
}

#[test]
fn can_read() {
    let mut buf = Vec::default();
    buf.extend_from_slice(TEST_STRING);
    buf.extend_from_slice(&checksum());

    let r = Crc32cReader::new(buf);
    let out = r.read_to_end().unwrap();
    assert_eq!(out, TEST_STRING);
}

#[test]
fn can_fail_read() {
    let mut buf = Vec::default();
    buf.extend_from_slice(TEST_STRING);
    buf.extend_from_slice(&checksum());
    // change the checksum value
    let last = buf.pop().unwrap();
    buf.push(last.wrapping_add(1));

    let r = Crc32cReader::new(buf);
    let res = r.read_to_end();
    assert!(res.is_err())
}

#[test]
fn can_write() {
    let mut writer = Crc32cWriter::new(Vec::<u8>::default());
    writer.write_all(TEST_STRING);
    assert_eq!(writer.finalize(), 4);
    let buf = writer.into_inner();

    assert_eq!(buf.len(), TEST_STRING.len() + 4);
    assert_eq!(&buf[..TEST_STRING.len()], TEST_STRING);
    assert_eq!(&buf[buf.len() - 4..], checksum())
}

#[test]
fn crc_codec_detects_any_changed_byte() {
    let codec = Crc32cCodec::default();
    let enc = codec.encode(TEST_STRING);
    assert_eq!(enc.len(), TEST_STRING.len() + 4);
    assert_eq!(codec.decode(&enc).unwrap(), TEST_STRING);
    for at in [0, 1, 17, enc.len() - 5, enc.len() - 4, enc.len() - 1] {
        let mut bad = enc.clone();
        bad[at] ^= 0x40;
        assert_eq!(codec.decode(&bad), Err(ZarrError::ChecksumFailure));
    }
    assert!(codec.decode(&[1, 2, 3]).is_err());
    assert_eq!(codec.compute_encoded_size(Some(10)), Some(14));
    assert_eq!(codec.compute_encoded_size(None), None);
}

#[test]
fn gzip_roundtrip_at_every_level() {
    for level in 0..10u32 {
        let codec = GzipCodec::from_level(level).unwrap();
        assert_eq!(codec.level.to_u32(), level);
        let enc = codec.encode(TEST_STRING);
        assert_ne!(enc, TEST_STRING);
        assert_eq!(codec.decode(&enc).unwrap(), TEST_STRING);
    }
    assert!(GzipCodec::from_level(10).is_err());
    assert_eq!(GzipCodec::default().level, GzipLevel::L6);
    assert_eq!(GzipCodec::best().level, GzipLevel::L9);
    assert_eq!(GzipCodec::fastest().level, GzipLevel::L1);
    assert_eq!(GzipCodec::none().level, GzipLevel::L0);
    assert_eq!(GzipCodec::default().decode(TEST_STRING), Err(ZarrError::DecodeFailure));
    assert_eq!(GzipCodec::default().compute_encoded_size(Some(10)), None);
}

#[test]
fn array_roundtrip_simple() {
    let arr = f64_arr();
    let chain = CodecChain::default();
    let buf = chain.encode(arr.clone()).unwrap();
    assert_ne!(buf.len(), 0);
    let arr2 = chain.decode(buf, &f64_repr()).unwrap();
    assert!(same(&arr, &arr2));
}

#[test]
fn array_meta_roundtrip_complicated() {
    let arr = f64_arr();
    let chain = CodecChain::new(
        vec![
            AACodecType::Transpose(TransposeCodec::new_transpose(SHAPE.len())),
            AACodecType::Transpose(TransposeCodec::new_transpose(SHAPE.len())),
            AACodecType::Transpose(TransposeCodec::new_transpose(SHAPE.len())),
        ],
        ABCodecType::Bytes(BytesCodec::new_big()),
        vec![
            BBCodecType::Gzip(GzipCodec::default()),
            BBCodecType::Gzip(GzipCodec::from_level(2).unwrap()),
        ],
    );
    assert!(chain.is_wf_for(3));
    let buf = chain.encode(arr.clone()).unwrap();
    assert_ne!(buf.len(), 0);
    let arr2 = chain.decode(buf, &f64_repr()).unwrap();
    assert!(same(&arr, &arr2));
}

#[test]
fn default_chain_stores_the_elements_as_they_are() {
    let arr = f64_arr();
    let chain = CodecChain::default();
    assert_eq!(chain.len(), 1);
    assert!(!chain.is_empty());
    assert_eq!(chain.endian(), Some(Endian::Little));
    let buf = chain.encode(arr.clone()).unwrap();
    assert_eq!(buf, arr.elems.bytes);
}

#[test]
fn chain_with_checksum_refuses_damage() {
    let chain = CodecChain::new(
        vec![],
        ABCodecType::default(),
        vec![BBCodecType::Crc32c(Some(Crc32cCodec::default()))],
    );
    let arr = f64_arr();
    let mut buf = chain.encode(arr.clone()).unwrap();
    assert_eq!(buf.len(), 60 * 8 + 4);
    let back = chain.decode(buf.clone(), &f64_repr()).unwrap();
    assert!(same(&arr, &back));
    let at = buf.len() - 1;
    buf[at] = buf[at].wrapping_add(1);
    assert_eq!(chain.decode(buf, &f64_repr()).err(), Some(ZarrError::ChecksumFailure));
}

#[test]
fn chains_are_built_in_order() {
    let t = || CodecType::AA(AACodecType::Transpose(TransposeCodec::new_transpose(2)));
    let b = || CodecType::AB(ABCodecType::default());
    let g = || CodecType::BB(BBCodecType::Gzip(GzipCodec::default()));
    let c = CodecChain::from_codecs(vec![t(), b(), g(), g()]).unwrap();
    assert_eq!(c.len(), 4);
    assert_eq!(c.aa_codecs.len(), 1);
    assert_eq!(c.bb_codecs.len(), 2);
    assert!(matches!(
        CodecChain::from_codecs(vec![t(), g()]),
        Err(CodecChainConstructionError::NoAB)
    ));
    assert!(matches!(
        CodecChain::from_codecs(vec![]),
        Err(CodecChainConstructionError::NoAB)
    ));
    assert!(matches!(
        CodecChain::from_codecs(vec![b(), b()]),
        Err(CodecChainConstructionError::MultipleAB)
    ));
    assert!(matches!(
        CodecChain::from_codecs(vec![b(), t()]),
        Err(CodecChainConstructionError::IllegalOrder(CodecKind::AA, CodecKind::AB))
    ));
    assert!(matches!(
        CodecChain::from_codecs(vec![g(), b()]),
        Err(CodecChainConstructionError::IllegalOrder(CodecKind::AB, CodecKind::BB))
    ));
}
