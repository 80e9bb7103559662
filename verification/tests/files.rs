use zarr3::codecs::ab::sharding_indexed::first_gap;
use zarr3::codecs::ab::sharding_indexed::ChunkAddress;
use zarr3::codecs::ab::sharding_indexed::ChunkSpec;
use zarr3::codecs::ab::bytes_codec::endian_of_probe;
use zarr3::codecs::ab::bytes_codec::native_endian;
use zarr3::codecs::ab::bytes_codec::BytesCodec;
use zarr3::codecs::ab::bytes_codec::Endian;
use zarr3::codecs::aa::transpose::TransposeCodec;
use zarr3::codecs::aa::AACodec;
use zarr3::codecs::aa::AACodecType;
use zarr3::codecs::ABCodec;
use zarr3::codecs::ArrayRepr;
use zarr3::coord::GridCoord;
use zarr3::data_type::DataType;
use zarr3::data_type::IntSize;
use zarr3::ndarr::NDArr;
use zarr3::store::filesystem::DirEntry;
use zarr3::store::filesystem::FileSystemStore;
use zarr3::store::NodeKey;
use zarr3::store::NodeName;

fn entry(name: &str, is_file: bool) -> DirEntry {
    DirEntry { name: Some(name.to_string()), is_file }
}

fn encoded(keys: &[NodeKey]) -> Vec<String> {
    keys.iter().map(|k| k.encode()).collect()
}

fn through_aa<C: AACodec>(c: &C, a: &NDArr) -> NDArr {
    c.decode(&c.encode(a))
}

fn through_ab<C: ABCodec>(c: &C, a: &NDArr, repr: &ArrayRepr) -> NDArr {
    c.decode(c.encode(a).unwrap(), repr).unwrap()
}

#[test]
fn key_to_path() {
    let store = FileSystemStore::new_unchecked("/data/root.zarr".to_string());
    assert_eq!(store.base_path(), "/data/root.zarr");
    let key = NodeKey::from_str("a/b/zarr.json").unwrap();
    assert_eq!(
        store.get_path(&key),
        Some(vec!["a".to_string(), "b".to_string(), "zarr.json".to_string()])
    );
    assert_eq!(store.get_path(&NodeKey::default()), Some(vec![]));
    for bad in ["..", ".", "", "a/../..", "__x"] {
        let key = NodeKey::from_names(vec![
            NodeName::new_unchecked("a".to_string()),
            NodeName::new_unchecked(bad.to_string()),
        ]);
        assert_eq!(store.get_path(&key), None);
    }
}

#[test]
fn entries_of_a_directory_become_keys() {
    let prefix = NodeKey::from_str("g").unwrap();
    let entries = vec![
        entry("zarr.json", true),
        entry("c", false),
        DirEntry { name: None, is_file: true },
        entry("..", false),
        entry("__hidden", true),
        entry("arr", false),
        entry("notes.txt", true),
    ];
    let (keys, prefixes) = FileSystemStore::classify_entries(&prefix, &entries);
    assert_eq!(encoded(&keys), vec!["g/zarr.json", "g/notes.txt"]);
    assert_eq!(encoded(&prefixes), vec!["g/c", "g/arr"]);
    let (keys, prefixes) = FileSystemStore::classify_entries(&prefix, &[]);
    assert!(keys.is_empty() && prefixes.is_empty());
}

#[test]
fn addresses_are_sixteen_bytes() {
    let a = ChunkAddress { offset: 1, nbytes: 0x0102 };
    let mut out = Vec::new();
    a.write_to(&mut out);
    assert_eq!(out, vec![1, 0, 0, 0, 0, 0, 0, 0, 2, 1, 0, 0, 0, 0, 0, 0]);
    assert_eq!(ChunkAddress::from_reader(&out), Ok(a));
    assert!(ChunkAddress::from_reader(&out[..15]).is_err());
    assert_eq!(a.end_offset(), Some(0x0103));
    assert_eq!(ChunkAddress::empty().end_offset(), None);
    assert!(ChunkAddress::empty().is_empty());
    assert_eq!(ChunkAddress::nbytes(), 16);
    assert_eq!(a.read_range(&[9, 8, 7]), Err(zarr3::codecs::ab::sharding_indexed::ChunkReadError::Io));
    let b = ChunkAddress { offset: 1, nbytes: 2 };
    assert_eq!(b.read_range(&[9, 8, 7]), Ok(vec![8, 7]));
}

#[test]
fn first_gap_between_sub_chunks() {
    let at = |offset: u64, nbytes: u64| ChunkAddress { offset, nbytes };
    assert_eq!(first_gap(&[], 0), 0);
    assert_eq!(first_gap(&[ChunkAddress::empty()], 0), 0);
    let addrs = [at(30, 10), ChunkAddress::empty(), at(0, 10), at(12, 8)];
    assert_eq!(first_gap(&addrs, 0), 10);
    assert_eq!(first_gap(&addrs, 1), 10);
    assert_eq!(first_gap(&addrs, 2), 20);
    assert_eq!(first_gap(&addrs, 9), 20);
    assert_eq!(first_gap(&addrs, 10), 40);
    let spec = ChunkSpec::new(addrs.to_vec(), GridCoord::from_slice(&[2, 2])).unwrap();
    assert_eq!(spec.get_first_gap(5), 20);
    assert_eq!(spec.n_subchunks(), 4);
}

#[test]
fn native_byte_order() {
    let want = if u16::from_ne_bytes([1, 0]) == 1 { Endian::Little } else { Endian::Big };
    assert_eq!(native_endian(), want);
    assert_eq!(BytesCodec::new_native().endian, Some(want));
}

#[test]
fn codecs_through_their_traits() {
    let a = NDArr::from_bytes(&[2, 3], DataType::Int(IntSize::b16), (0..12).collect()).unwrap();
    let repr = ArrayRepr::new(&[2, 3], DataType::Int(IntSize::b16), vec![0, 0]);
    let t = TransposeCodec::new(vec![1, 0]).unwrap();
    assert_eq!(AACodec::encode(&t, &a).shape, vec![3, 2]);
    assert_eq!(AACodec::encode(&t, &a).elems.bytes, vec![0, 1, 6, 7, 2, 3, 8, 9, 4, 5, 10, 11]);
    assert_eq!(through_aa(&t, &a).elems.bytes, a.elems.bytes);
    assert_eq!(through_aa(&AACodecType::Transpose(t.clone()), &a).elems.bytes, a.elems.bytes);
    let r = AACodec::compute_encoded_size(&t, repr.clone());
    assert_eq!(r.shape.as_slice(), &[3, 2]);
    let b = BytesCodec::new_big();
    assert_eq!(ABCodec::encode(&b, &a).unwrap(), vec![1, 0, 3, 2, 5, 4, 7, 6, 9, 8, 11, 10]);
    assert_eq!(ABCodec::endian(&b), Some(Endian::Big));
    assert_eq!(through_ab(&b, &a, &repr).elems.bytes, a.elems.bytes);
    assert_eq!(through_ab(&zarr3::codecs::ab::ABCodecType::default(), &a, &repr).elems.bytes, a.elems.bytes);
    assert!(ABCodec::valid_endian(&BytesCodec::new(None), &DataType::Int(IntSize::b16)).is_err());
}

#[test]
fn byte_order_of_a_probe() {
    assert_eq!(endian_of_probe(1), Endian::Little);
    assert_eq!(endian_of_probe(256), Endian::Big);
    assert_eq!(endian_of_probe(u16::from_ne_bytes([1, 0])), native_endian());
    assert_eq!(zarr3::codecs::ab::endian::EndianCodec::new_native().endian, native_endian());
}

#[test]
fn index_is_read_from_the_start_of_the_bytes() {
    let addrs = vec![
        ChunkAddress { offset: 0, nbytes: 5 },
        ChunkAddress::empty(),
        ChunkAddress { offset: 5, nbytes: 7 },
    ];
    let spec = ChunkSpec::new(addrs.clone(), GridCoord::from_slice(&[3])).unwrap();
    let mut bytes = Vec::new();
    spec.write_to(&mut bytes);
    assert_eq!(bytes.len(), 16 * 3 + 4);
    let shape = || GridCoord::from_slice(&[3]);
    let back = ChunkSpec::from_reader(&bytes, shape()).unwrap();
    assert_eq!(back.n_subchunks(), 3);
    assert_eq!(back.get_idx(&GridCoord::from_slice(&[2])), Ok(Some(addrs[2])));
    assert_eq!(back.get_idx(&GridCoord::from_slice(&[1])), Ok(Some(ChunkAddress::empty())));
    let mut longer = bytes.clone();
    longer.extend_from_slice(&[9, 9, 9]);
    let back = ChunkSpec::from_reader(&longer, shape()).unwrap();
    assert_eq!(back.get_idx(&GridCoord::from_slice(&[0])), Ok(Some(addrs[0])));
    assert!(ChunkSpec::from_reader(&bytes[..bytes.len() - 1], shape()).is_err());
    let mut bad = bytes.clone();
    bad[3] ^= 1;
    assert!(ChunkSpec::from_reader(&bad, shape()).is_err());
    let mut shard = vec![7u8; 12];
    shard.extend_from_slice(&bytes);
    let back = ChunkSpec::from_shard(&shard, shape()).unwrap();
    assert_eq!(back.get_idx(&GridCoord::from_slice(&[2])), Ok(Some(addrs[2])));
}
