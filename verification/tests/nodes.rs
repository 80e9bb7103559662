use zarr3::chunk_grid::ArrayRegion;
use zarr3::chunk_grid::ChunkGridType;
use zarr3::chunk_key_encoding::ChunkKeyEncoding;
use zarr3::chunk_key_encoding::V2ChunkKeyEncoding;
use zarr3::codecs::aa::transpose::TransposeCodec;
use zarr3::codecs::aa::AACodecType;
use zarr3::codecs::ab::bytes_codec::BytesCodec;
use zarr3::codecs::ab::sharding_indexed::ShardingIndexedCodec;
use zarr3::codecs::ab::ABCodecType;
use zarr3::codecs::bb::crc32c_codec::Crc32cCodec;
use zarr3::codecs::bb::gzip_codec::GzipCodec;
use zarr3::codecs::bb::BBCodecType;
use zarr3::coord::GridCoord;
use zarr3::data_type::DataType;
use zarr3::data_type::FloatSize;
use zarr3::data_type::IntSize;
use zarr3::json::JsonNumber;
use zarr3::json::JsonValue;
use zarr3::ndarr::NDArr;
use zarr3::node::array::Array;
use zarr3::node::array::ArrayMetadata;
use zarr3::node::array::ArrayMetadataBuilder;
use zarr3::node::array::Extension;
use zarr3::node::array::MetadataError;
use zarr3::node::group::Group;
use zarr3::node::group::GroupMetadata;
use zarr3::node::Metadata;
use zarr3::node::ReadableMetadata;
use zarr3::node::WriteableMetadata;
use zarr3::prelude::create_root_array;
use zarr3::prelude::create_root_group;
use zarr3::prelude::RootError;
use zarr3::store::HashMapStore;
use zarr3::store::ListableStore;
use zarr3::store::NodeKey;
use zarr3::store::NodeName;
use zarr3::store::ReadableStore;
use zarr3::store::WriteableStore;
use zarr3::ZarrError;

const I32: DataType = DataType::Int(IntSize::b32);

fn doc(s: &str) -> Vec<u8> {
    s.as_bytes().to_vec()
}

fn name(s: &str) -> NodeName {
    NodeName::from_str(s).unwrap()
}

fn whole(v: i64) -> JsonValue {
    JsonValue::Number(JsonNumber {
        as_i64: Some(v),
        as_u64: if v >= 0 { Some(v as u64) } else { None },
        f64_bits: (v as f64).to_bits(),
        f32_bits: (v as f32).to_bits(),
    })
}

fn i32_arr(shape: &[u64], vals: &[i32]) -> NDArr {
    let bytes: Vec<u8> = vals.iter().flat_map(|v| v.to_le_bytes()).collect();
    NDArr::from_bytes(shape, I32, bytes).unwrap()
}

fn i32_vals(a: &NDArr) -> Vec<i32> {
    a.elems.bytes.chunks(4).map(|b| i32::from_le_bytes([b[0], b[1], b[2], b[3]])).collect()
}

fn f32_arr(shape: &[u64], vals: &[f32]) -> NDArr {
    let bytes: Vec<u8> = vals.iter().flat_map(|v| v.to_le_bytes()).collect();
    NDArr::from_bytes(shape, DataType::Float(FloatSize::b32), bytes).unwrap()
}

fn f32_vals(a: &NDArr) -> Vec<f32> {
    a.elems.bytes.chunks(4).map(|b| f32::from_le_bytes([b[0], b[1], b[2], b[3]])).collect()
}

fn small_meta() -> ArrayMetadata {
    ArrayMetadataBuilder::new(&[4, 4], I32).chunk_grid(ChunkGridType::from_slice(&[2, 2])).unwrap().build()
}

fn chunk_contents(store: &HashMapStore, arr: &Array, idx: &[u64]) -> Vec<i32> {
    i32_vals(&arr.read_chunk(store, idx).unwrap())
}

#[test]
fn array_build_arraymeta() {
    let meta: ArrayMetadata = ArrayMetadataBuilder::new(&[100, 200, 300], DataType::Float(FloatSize::b64))
        .chunk_grid(ChunkGridType::from_slice(&[10, 10, 10]))
        .unwrap()
        .chunk_key_encoding(ChunkKeyEncoding::V2(V2ChunkKeyEncoding::default()))
        .fill_value(JsonValue::Number(JsonNumber {
            as_i64: None,
            as_u64: None,
            f64_bits: 1.0f64.to_bits(),
            f32_bits: 1.0f32.to_bits(),
        }))
        .push_aa_codec(AACodecType::Transpose(TransposeCodec::new_transpose(3)))
        .unwrap()
        .ab_codec(ABCodecType::Bytes(BytesCodec::new_little()))
        .unwrap()
        .push_bb_codec(BBCodecType::Gzip(GzipCodec::default()))
        .dimension_names(vec![Some("x".to_string()), None, Some("z".to_string())])
        .unwrap()
        .build();
    assert!(meta.validate().is_ok());
    assert_eq!(meta.shape.as_slice(), &[100, 200, 300]);
    assert_eq!(meta.get_effective_fill_value(), Some(1.0f64.to_le_bytes().to_vec()));
    assert_eq!(meta.codecs.len(), 3);
}

#[test]
fn builder_refuses_what_has_other_axes() {
    let b = ArrayMetadataBuilder::new(&[4, 4], I32);
    assert!(b.chunk_grid(ChunkGridType::from_slice(&[2, 2, 2])).is_err());
    let b = ArrayMetadataBuilder::new(&[4, 4], I32);
    assert!(b.push_aa_codec(AACodecType::Transpose(TransposeCodec::new_transpose(3))).is_err());
    let b = ArrayMetadataBuilder::new(&[4, 4], I32);
    assert!(b.dimension_names(vec![None]).is_err());
}

#[test]
fn metadata_rules() {
    assert!(small_meta().validate().is_ok());
    let mut m = small_meta();
    m.fill_value = JsonValue::String("x".to_string());
    assert_eq!(m.validate(), Err(MetadataError::InvalidFillValue));
    assert!(m.get_effective_fill_value().is_none());
    let mut m = small_meta();
    m.chunk_grid = ChunkGridType::from_slice(&[2, 0]);
    assert_eq!(m.validate(), Err(MetadataError::ZeroChunkDimension));
    let mut m = small_meta();
    m.chunk_grid = ChunkGridType::from_slice(&[2]);
    assert_eq!(m.validate(), Err(MetadataError::InconsistentDimensions));
    let mut m = small_meta();
    m.codecs.ab_codec = ABCodecType::Bytes(BytesCodec::new(None));
    assert_eq!(m.validate(), Err(MetadataError::UndefinedEndian));
    let mut m = small_meta();
    m.codecs.ab_codec = ABCodecType::from_sharding(ShardingIndexedCodec::new(GridCoord::from_slice(&[3, 3])));
    assert!(m.validate().is_ok());
    assert!(Array::new(NodeKey::default(), m).is_ok());
    let mut m = small_meta();
    m.extensions.push((
        "needed".to_string(),
        Extension(JsonValue::Object(vec![("must_understand".to_string(), JsonValue::Bool(true))])),
    ));
    assert!(matches!(m.validate(), Err(MetadataError::Extension(_))));
    assert_eq!(Array::new(NodeKey::default(), m).err(), Some(ZarrError::InvalidMetadata));
    let mut m = small_meta();
    m.extensions.push((
        "optional".to_string(),
        Extension(JsonValue::Object(vec![("must_understand".to_string(), JsonValue::Bool(false))])),
    ));
    assert!(m.validate().is_ok());
}

#[test]
fn chunk_roundtrip() {
    let mut store = HashMapStore::new();
    let g = Group::new(NodeKey::default(), GroupMetadata::default());
    g.write_meta(&mut store, doc("{\"zarr_format\":3,\"node_type\":\"group\"}")).unwrap();
    let g2 = g.create_group(&mut store, name("child"), doc("{\"node_type\":\"group\"}")).unwrap();

    let ameta = || {
        ArrayMetadataBuilder::new(&[30, 40], DataType::Float(FloatSize::b32))
            .chunk_grid(ChunkGridType::from_slice(&[5, 10]))
            .unwrap()
            .build()
    };
    let arr = g2.create_array(&mut store, name("array"), ameta(), doc("{\"node_type\":\"array\"}")).unwrap();

    let chunk = f32_arr(&[5, 10], &[1.0; 50]);
    arr.write_chunk(&mut store, &[0, 0], chunk.clone()).unwrap();

    let g_again = Group::from_store(NodeKey::default(), GroupMetadata::default());
    let g2_key = NodeKey::from_names(vec![name("child")]);
    assert!(g_again.get_group(&store, &g2_key).unwrap().is_some());
    let g2_again = Group::from_store(g_again.descendant_key(&g2_key), GroupMetadata::default());
    let a_key = NodeKey::from_names(vec![name("array")]);
    let found = g2_again.get_array(&store, &a_key).unwrap().unwrap();
    assert_eq!(found, doc("{\"node_type\":\"array\"}"));
    let arr_again = Array::new(g2_again.descendant_key(&a_key), ameta()).unwrap();
    assert_eq!(arr_again.key().encode(), "child/array");

    let chunk2 = arr_again.read_chunk(&store, &[0, 0]).unwrap();
    assert_eq!(f32_vals(&chunk), f32_vals(&chunk2));
    assert_eq!(chunk.shape, chunk2.shape);

    let chunk3 = arr_again.read_chunk(&store, &[1, 1]).unwrap();
    assert_eq!(chunk3.shape, chunk2.shape);
    assert!(f32_vals(&chunk3).iter().all(|v| *v == 0.0));
    assert!(g_again.get_group(&store, &NodeKey::from_names(vec![name("nope")])).unwrap().is_none());
}

#[test]
fn partial_write() {
    let mut store = HashMapStore::new();
    let g = Group::new(NodeKey::default(), GroupMetadata::default());
    g.write_meta(&mut store, doc("{}")).unwrap();
    let arr = g.create_array(&mut store, name("array"), small_meta(), doc("{}")).unwrap();

    let middle = i32_arr(&[2, 2], &[1; 4]);
    arr.write_region(&mut store, &[1, 1], middle).expect("Could not write region");

    assert_eq!(chunk_contents(&store, &arr, &[0, 0]), vec![0, 0, 0, 1]);
    assert_eq!(chunk_contents(&store, &arr, &[0, 1]), vec![0, 0, 1, 0]);
    assert_eq!(chunk_contents(&store, &arr, &[1, 0]), vec![0, 1, 0, 0]);
    assert_eq!(chunk_contents(&store, &arr, &[1, 1]), vec![1, 0, 0, 0]);
}

#[test]
fn partial_read() {
    let mut store = HashMapStore::new();
    let g = Group::new(NodeKey::default(), GroupMetadata::default());
    g.write_meta(&mut store, doc("{}")).unwrap();
    let arr = g.create_array(&mut store, name("array"), small_meta(), doc("{}")).unwrap();

    let middle = i32_arr(&[2, 2], &[1; 4]);
    arr.write_chunk(&mut store, &[0, 0], middle.clone()).unwrap();
    arr.write_chunk(&mut store, &[0, 1], middle.clone()).unwrap();

    let read_arr = arr
        .read_region(&store, &ArrayRegion::from_offset_shape(&[0, 0], &[4, 4]))
        .unwrap()
        .unwrap();
    let vals = i32_vals(&read_arr);
    let expected: Vec<i32> = vec![
        1, 1, 1, 1,
        1, 1, 1, 1,
        0, 0, 0, 0,
        0, 0, 0, 0,
    ];
    assert_eq!(vals, expected);
}

#[test]
fn region_written_into_a_compressed_array_reads_back() {
    let mut store = HashMapStore::new();
    let root = create_root_group(&mut store, GroupMetadata::default(), doc("{}")).unwrap();
    let meta = ArrayMetadataBuilder::new(&[20, 10], I32)
        .chunk_grid(ChunkGridType::from_slice(&[10, 5]))
        .unwrap()
        .fill_value(whole(-1))
        .ab_codec(ABCodecType::Bytes(BytesCodec::new_little()))
        .unwrap()
        .push_bb_codec(BBCodecType::Gzip(GzipCodec::from_level(6).unwrap()))
        .build();
    let arr = root.create_array(&mut store, name("a"), meta, doc("{}")).unwrap();
    let block: Vec<i32> = (10..70).collect();
    arr.write_region(&mut store, &[5, 2], i32_arr(&[10, 6], &block)).unwrap();
    let whole = arr
        .read_region(&store, &ArrayRegion::from_offset_shape(&[0, 0], &[20, 10]))
        .unwrap()
        .unwrap();
    assert_eq!(whole.shape, vec![20, 10]);
    let vals = i32_vals(&whole);
    for r in 0..20i32 {
        for c in 0..10i32 {
            let got = vals[(r * 10 + c) as usize];
            if (5..15).contains(&r) && (2..8).contains(&c) {
                assert_eq!(got, 10 + (r - 5) * 6 + (c - 2));
            } else {
                assert_eq!(got, -1);
            }
        }
    }
    let part = arr
        .read_region(&store, &ArrayRegion::from_offset_shape(&[5, 2], &[10, 6]))
        .unwrap()
        .unwrap();
    assert_eq!(i32_vals(&part), block);
}

#[test]
fn sharded_array_reads_back() {
    let mut store = HashMapStore::new();
    let inner = ShardingIndexedCodec::new(GridCoord::from_slice(&[10, 20]))
        .push_aa_codec(AACodecType::Transpose(TransposeCodec::new(vec![1, 0]).unwrap()))
        .unwrap()
        .ab_codec(ABCodecType::Bytes(BytesCodec::new_big()))
        .unwrap()
        .push_bb_codec(BBCodecType::Gzip(GzipCodec::default()));
    let meta = ArrayMetadataBuilder::new(&[50, 60], I32)
        .chunk_grid(ChunkGridType::from_slice(&[50, 60]))
        .unwrap()
        .ab_codec(ABCodecType::from_sharding(inner))
        .unwrap()
        .build();
    let arr = create_root_array(&mut store, meta, doc("{}")).unwrap();
    let ramp: Vec<i32> = (0..3000).collect();
    arr.write_region(&mut store, &[0, 0], i32_arr(&[50, 60], &ramp)).unwrap();
    let back = arr
        .read_region(&store, &ArrayRegion::from_offset_shape(&[0, 0], &[50, 60]))
        .unwrap()
        .unwrap();
    assert_eq!(i32_vals(&back), ramp);
    assert_eq!(store.list().unwrap().len(), 2);
}

#[test]
fn created_array_is_found_through_the_store() {
    let mut store = HashMapStore::new();
    let document = doc("{\"zarr_format\":3,\"node_type\":\"array\",\"data_type\":\"int32\"}");
    let arr = create_root_array(&mut store, small_meta(), document.clone()).unwrap();
    assert!(arr.key().is_root());
    assert_eq!(arr.meta_key().encode(), "zarr.json");
    let found = store.get(arr.meta_key()).unwrap().unwrap();
    assert_eq!(found, document);
    assert_eq!(arr.metadata().data_type, I32);
    assert_eq!(arr.metadata().data_type.name(), "int32");
    assert_eq!(arr.metadata().get_effective_fill_value(), Some(vec![0, 0, 0, 0]));
    assert_eq!(
        arr.metadata().get_effective_fill_value(),
        I32.fill_value_bytes(&I32.default_fill_value())
    );
    assert_eq!(arr.fill_value(), &[0, 0, 0, 0]);
}

#[test]
fn two_chunks_of_ones_in_an_array_of_zeros() {
    let mut store = HashMapStore::new();
    let arr = create_root_array(&mut store, small_meta(), doc("{}")).unwrap();
    let ones = i32_arr(&[2, 2], &[1; 4]);
    arr.write_chunk(&mut store, &[0, 0], ones.clone()).unwrap();
    arr.write_chunk(&mut store, &[1, 1], ones).unwrap();
    let got = arr
        .read_region(&store, &ArrayRegion::from_offset_shape(&[0, 0], &[4, 4]))
        .unwrap()
        .unwrap();
    let expected: Vec<i32> = vec![
        1, 1, 0, 0,
        1, 1, 0, 0,
        0, 0, 1, 1,
        0, 0, 1, 1,
    ];
    assert_eq!(i32_vals(&got), expected);
}

#[test]
fn damaged_checksum_fails_one_chunk_only() {
    let mut store = HashMapStore::new();
    let meta = ArrayMetadataBuilder::new(&[4, 4], I32)
        .chunk_grid(ChunkGridType::from_slice(&[2, 2]))
        .unwrap()
        .push_bb_codec(BBCodecType::Crc32c(Some(Crc32cCodec::default())))
        .build();
    let arr = create_root_array(&mut store, meta, doc("{}")).unwrap();
    arr.write_chunk(&mut store, &[0, 0], i32_arr(&[2, 2], &[1, 2, 3, 4])).unwrap();
    arr.write_chunk(&mut store, &[0, 1], i32_arr(&[2, 2], &[5, 6, 7, 8])).unwrap();
    let key = arr.chunk_key(&[0, 0]);
    assert_eq!(key.encode(), "c/0/0");
    let mut bytes = store.get(&key).unwrap().unwrap();
    assert_eq!(bytes.len(), 16 + 4);
    let last = bytes.pop().unwrap();
    bytes.push(last ^ 1);
    store.set(&key, bytes).unwrap();
    assert_eq!(arr.read_chunk(&store, &[0, 0]).err(), Some(ZarrError::ChecksumFailure));
    assert_eq!(chunk_contents(&store, &arr, &[0, 1]), vec![5, 6, 7, 8]);
    assert_eq!(chunk_contents(&store, &arr, &[1, 1]), vec![0, 0, 0, 0]);
    let whole = arr.read_region(&store, &ArrayRegion::from_offset_shape(&[0, 0], &[4, 4]));
    assert_eq!(whole.err(), Some(ZarrError::ChecksumFailure));
    let right = arr
        .read_region(&store, &ArrayRegion::from_offset_shape(&[0, 2], &[2, 2]))
        .unwrap()
        .unwrap();
    assert_eq!(i32_vals(&right), vec![5, 6, 7, 8]);
}

#[test]
fn chunk_of_fill_values_is_not_stored() {
    let mut store = HashMapStore::new();
    let arr = create_root_array(&mut store, small_meta(), doc("{}")).unwrap();
    let key = arr.chunk_key(&[1, 0]);
    arr.write_chunk(&mut store, &[1, 0], i32_arr(&[2, 2], &[0, 3, 0, 0])).unwrap();
    assert!(store.has_key(&key).unwrap());
    assert_eq!(store.get(&key).unwrap().unwrap().len(), 16);
    arr.write_chunk(&mut store, &[1, 0], i32_arr(&[2, 2], &[0; 4])).unwrap();
    assert!(!store.has_key(&key).unwrap());
    assert_eq!(chunk_contents(&store, &arr, &[1, 0]), vec![0; 4]);
    // Writing fill values over a part of a chunk empties it as well.
    arr.write_region(&mut store, &[2, 1], i32_arr(&[1, 1], &[9])).unwrap();
    assert!(store.has_key(&key).unwrap());
    arr.write_region(&mut store, &[2, 1], i32_arr(&[1, 1], &[0])).unwrap();
    assert!(!store.has_key(&key).unwrap());
}

#[test]
fn chunk_access_is_checked() {
    let mut store = HashMapStore::new();
    let arr = create_root_array(&mut store, small_meta(), doc("{}")).unwrap();
    assert_eq!(arr.read_chunk(&store, &[0]).err(), Some(ZarrError::DimensionMismatch));
    assert_eq!(arr.read_chunk(&store, &[2, 0]).err(), Some(ZarrError::OutOfBounds));
    assert_eq!(arr.read_chunk(&store, &[0, 2]).err(), Some(ZarrError::OutOfBounds));
    assert!(arr.read_chunk(&store, &[1, 1]).is_ok());
    let wrong = i32_arr(&[2, 3], &[0; 6]);
    assert_eq!(arr.write_chunk(&mut store, &[0, 0], wrong).err(), Some(ZarrError::DimensionMismatch));
    assert!(arr.metadata().chunk_should_exist(&[1, 1]));
    assert!(!arr.metadata().chunk_should_exist(&[2, 1]));
}

#[test]
fn regions_are_clipped_to_the_array() {
    let mut store = HashMapStore::new();
    let arr = create_root_array(&mut store, small_meta(), doc("{}")).unwrap();
    let vals: Vec<i32> = (1..10).collect();
    arr.write_region(&mut store, &[2, 2], i32_arr(&[3, 3], &vals)).unwrap();
    let got = arr
        .read_region(&store, &ArrayRegion::from_offset_shape(&[2, 2], &[3, 3]))
        .unwrap()
        .unwrap();
    assert_eq!(got.shape, vec![2, 2]);
    assert_eq!(i32_vals(&got), vec![1, 2, 4, 5]);
    assert!(arr
        .read_region(&store, &ArrayRegion::from_offset_shape(&[4, 0], &[1, 1]))
        .unwrap()
        .is_none());
    assert!(arr.write_region(&mut store, &[0, 4], i32_arr(&[1, 1], &[5])).is_ok());
    assert_eq!(store.list().unwrap().len(), 2);
    assert_eq!(
        arr.read_region(&store, &ArrayRegion::from_offset_shape(&[0], &[1])).err(),
        Some(ZarrError::DimensionMismatch)
    );
    assert_eq!(
        arr.write_region(&mut store, &[0], i32_arr(&[1], &[5])).err(),
        Some(ZarrError::DimensionMismatch)
    );
}

#[test]
fn root_nodes_are_made_once() {
    let mut store = HashMapStore::new();
    let g = create_root_group(&mut store, GroupMetadata::default(), doc("{\"a\":1}")).unwrap();
    assert!(g.key().is_root());
    assert_eq!(g.read_meta(&store).unwrap(), doc("{\"a\":1}"));
    let again = create_root_group(&mut store, GroupMetadata::default(), doc("{\"a\":2}"));
    assert_eq!(again.err(), Some(RootError::NodeExists));
    let arr = create_root_array(&mut store, small_meta(), doc("{}"));
    assert_eq!(arr.err(), Some(RootError::NodeExists));
    assert_eq!(g.read_meta(&store).unwrap(), doc("{\"a\":1}"));
    let mut fresh = HashMapStore::new();
    let mut bad = small_meta();
    bad.fill_value = JsonValue::Null;
    assert_eq!(
        create_root_array(&mut fresh, bad, doc("{}")).err(),
        Some(RootError::Failed(ZarrError::InvalidMetadata))
    );
    assert!(fresh.list().unwrap().is_empty());
}

#[test]
fn groups_make_and_erase_children() {
    let mut store = HashMapStore::new();
    let root = create_root_group(&mut store, GroupMetadata::default(), doc("{}")).unwrap();
    let child = root.create_group(&mut store, name("g"), doc("{}")).unwrap();
    let arr = child.create_array(&mut store, name("a"), small_meta(), doc("{}")).unwrap();
    arr.write_chunk(&mut store, &[0, 0], i32_arr(&[2, 2], &[1; 4])).unwrap();
    assert_eq!(store.list().unwrap().len(), 4);
    let kids: Vec<String> = root.child_keys(&store).unwrap().iter().map(|k| k.encode()).collect();
    assert_eq!(kids, vec!["g"]);
    let kids: Vec<String> = child.child_keys(&store).unwrap().iter().map(|k| k.encode()).collect();
    assert_eq!(kids, vec!["g/a"]);
    // Making a child anew empties what lay below its key.
    let arr = child.create_array(&mut store, name("a"), small_meta(), doc("{}")).unwrap();
    assert_eq!(store.list().unwrap().len(), 3);
    assert_eq!(chunk_contents(&store, &arr, &[0, 0]), vec![0; 4]);
    root.erase_child(&mut store, name("g")).unwrap();
    let left: Vec<String> = store.list().unwrap().iter().map(|k| k.encode()).collect();
    assert_eq!(left, vec!["zarr.json"]);
    root.erase(&mut store).unwrap();
    assert!(store.list().unwrap().is_empty());
}

#[test]
fn metadata_from_all_its_values() {
    let make = |grid: &[u64]| {
        ArrayMetadata::new(
            3,
            GridCoord::from_slice(&[4, 4]),
            I32,
            ChunkGridType::from_slice(grid),
            ChunkKeyEncoding::default(),
            whole(5),
            vec![],
            zarr3::codecs::CodecChain::default(),
            vec![("a".to_string(), JsonValue::Bool(true))],
            Some(vec![Some("y".to_string()), None]),
            vec![],
        )
    };
    let m = make(&[2, 2]).unwrap();
    assert_eq!(m.get_effective_fill_value(), Some(5i32.to_le_bytes().to_vec()));
    assert_eq!(m.attributes.len(), 1);
    assert_eq!(make(&[2, 0]).err(), Some(MetadataError::ZeroChunkDimension));
    assert_eq!(make(&[2, 2, 2]).err(), Some(MetadataError::InconsistentDimensions));
    let loose = ArrayMetadata::new_unchecked(
        3,
        GridCoord::from_slice(&[4, 4]),
        I32,
        ChunkGridType::from_slice(&[0]),
        ChunkKeyEncoding::default(),
        JsonValue::Null,
        vec![],
        zarr3::codecs::CodecChain::default(),
        vec![],
        None,
        vec![],
    );
    assert!(loose.validate().is_err());
}

#[test]
fn metadata_of_either_kind() {
    let mut a = small_meta();
    a.zarr_format = 7;
    let mut m = Metadata::from_array(a);
    assert_eq!(m.get_zarr_format(), 7);
    assert!(m.is_array());
    assert!(m.set_attribute("x", whole(1)).is_none());
    assert!(m.set_attribute("y", whole(2)).is_none());
    let had = m.set_attribute("x", whole(3));
    assert!(matches!(had, Some(JsonValue::Number(n)) if n.as_i64 == Some(1)));
    assert_eq!(m.get_attributes().len(), 2);
    assert_eq!(m.get_attributes()[0].0, "x");
    assert!(m.has_attribute("y") && !m.has_attribute("z"));
    assert!(matches!(m.get_attribute_value("x"), Some(JsonValue::Number(n)) if n.as_i64 == Some(3)));
    assert!(m.remove_attribute("z").is_none());
    assert!(m.remove_attribute("x").is_some());
    assert_eq!(m.get_attributes().len(), 1);
    assert_eq!(m.clear_attributes(), 1);
    assert_eq!(m.get_attributes().len(), 0);
    let g = Metadata::default();
    assert_eq!(g.get_zarr_format(), 3);
    assert!(!g.is_array());
    assert_eq!(g.get_attributes().len(), 0);
    let g = Metadata::from_group(GroupMetadata { zarr_format: 2, attributes: vec![] });
    assert_eq!(g.get_zarr_format(), 2);
    assert!(HashMapStore::default().list().unwrap().is_empty());
}

#[test]
fn array_with_broken_metadata_is_not_made() {
    let mut store = HashMapStore::new();
    let root = create_root_group(&mut store, GroupMetadata::default(), doc("{}")).unwrap();
    store.set(&NodeKey::from_str("a/old").unwrap(), vec![1]).unwrap();
    let mut bad = small_meta();
    bad.chunk_grid = ChunkGridType::from_slice(&[0, 2]);
    let r = root.create_array(&mut store, name("a"), bad, doc("{}"));
    assert_eq!(r.err(), Some(ZarrError::InvalidMetadata));
    assert_eq!(store.list().unwrap().len(), 2);
    let mut good = small_meta();
    good.zarr_format = 9;
    let a = root.create_array(&mut store, name("a"), good, doc("{}")).unwrap();
    assert_eq!(a.metadata().zarr_format, 9);
    assert!(!store.has_key(&NodeKey::from_str("a/old").unwrap()).unwrap());
}
