use zarr3::chunk_key_encoding::ChunkKeyEncoder;
use zarr3::chunk_key_encoding::ChunkKeyEncoding;
use zarr3::chunk_key_encoding::DefaultChunkKeyEncoding;
use zarr3::chunk_key_encoding::Separator;
use zarr3::chunk_key_encoding::V2ChunkKeyEncoding;
use zarr3::store::InvalidNodeName;
use zarr3::store::NodeKey;
use zarr3::store::NodeName;
use zarr3::RangeRequest;

fn strs(names: &[NodeName]) -> Vec<String> {
    names.iter().map(|n| n.as_str().to_string()).collect()
}

#[test]
fn default_chunk_key_encoding() {
    let cke = ChunkKeyEncoding::Default(DefaultChunkKeyEncoding::default());
    let s = cke.components(&[1, 2, 3]);
    let expected = vec!["c", "1", "2", "3"];
    assert_eq!(strs(&s), expected);
}

#[test]
fn v2_chunk_key_encoding() {
    let cke = ChunkKeyEncoding::V2(V2ChunkKeyEncoding::default());
    let s = cke.components(&[1, 2, 3]);
    let expected = vec!["1.2.3"];
    assert_eq!(strs(&s), expected);
}

#[test]
fn chunk_key_encodings_with_the_other_separator() {
    let d = DefaultChunkKeyEncoding { separator: Separator::Dot };
    assert_eq!(strs(&d.components(&[1, 2, 3])), vec!["c.1.2.3"]);
    assert_eq!(strs(&d.components(&[])), vec!["c"]);
    let v = V2ChunkKeyEncoding { separator: Separator::Slash };
    assert_eq!(strs(&v.components(&[10, 0, 7])), vec!["10", "0", "7"]);
    assert_eq!(strs(&v.components(&[])), vec!["0"]);
    let v = V2ChunkKeyEncoding { separator: Separator::Dot };
    assert_eq!(strs(&v.components(&[])), vec!["0"]);
    assert_eq!(strs(&v.components(&[18446744073709551615])), vec!["18446744073709551615"]);
}

#[test]
fn chunk_key_lies_below_the_array() {
    let node = NodeKey::from_str("group/array").unwrap();
    let cke = ChunkKeyEncoding::default();
    let k = cke.chunk_key(&node, &[4, 5]);
    assert_eq!(k.encode(), "group/array/c/4/5");
    let cke = ChunkKeyEncoding::V2(V2ChunkKeyEncoding::default());
    assert_eq!(cke.chunk_key(&node, &[4, 5]).encode(), "group/array/4.5");
}

#[test]
fn chunk_keys_of_different_chunks_differ() {
    let node = NodeKey::default();
    for cke in [
        ChunkKeyEncoding::Default(DefaultChunkKeyEncoding { separator: Separator::Slash }),
        ChunkKeyEncoding::Default(DefaultChunkKeyEncoding { separator: Separator::Dot }),
        ChunkKeyEncoding::V2(V2ChunkKeyEncoding { separator: Separator::Slash }),
        ChunkKeyEncoding::V2(V2ChunkKeyEncoding { separator: Separator::Dot }),
    ] {
        let mut seen: Vec<String> = Vec::new();
        for a in [0u64, 1, 11, 111] {
            for b in [0u64, 1, 11, 111] {
                let k = cke.chunk_key(&node, &[a, b]).encode();
                assert!(!seen.contains(&k));
                seen.push(k);
            }
        }
    }
}

#[test]
fn separators() {
    assert_eq!(Separator::Slash.to_char(), '/');
    assert_eq!(Separator::Dot.to_string(), ".");
    assert_eq!(zarr3::chunk_key_encoding::slash(), Separator::Slash);
    assert_eq!(zarr3::chunk_key_encoding::dot(), Separator::Dot);
}

#[test]
fn node_names() {
    assert!(NodeName::from_str("array").is_ok());
    assert!(NodeName::from_str("a.b").is_ok());
    assert!(NodeName::from_str("_x").is_ok());
    assert!(NodeName::from_str("zarr.json").is_ok());
    assert!(matches!(NodeName::from_str(""), Err(InvalidNodeName::Empty)));
    assert!(matches!(NodeName::from_str("."), Err(InvalidNodeName::IsPeriods)));
    assert!(matches!(NodeName::from_str("...."), Err(InvalidNodeName::IsPeriods)));
    assert!(matches!(NodeName::from_str("a/b"), Err(InvalidNodeName::HasSlash)));
    assert!(matches!(NodeName::from_str("__a"), Err(InvalidNodeName::ReservedPrefix)));
    assert!(matches!(NodeName::from_str("__"), Err(InvalidNodeName::ReservedPrefix)));
}

#[test]
fn node_keys() {
    let root = NodeKey::default();
    assert!(root.is_root());
    assert_eq!(root.encode(), "");
    let mut k = NodeKey::from_str("a/b/c").unwrap();
    assert_eq!(k.len(), 3);
    assert_eq!(k.encode(), "a/b/c");
    assert_eq!(k.encode_prefix(), "a/b/c/");
    let other = NodeKey::from_str("a/b/d/e").unwrap();
    assert_eq!(k.common_root(&other).encode(), "a/b");
    assert!(other.starts_with(&NodeKey::from_str("a/b").unwrap()));
    assert!(!other.starts_with(&k));
    assert!(NodeKey::from_str("a").unwrap().is_ancestor_of(&k));
    k.with_metadata();
    assert_eq!(k.encode(), "a/b/c/zarr.json");
    assert_eq!(k.pop().unwrap().as_str(), "zarr.json");
    assert!(NodeKey::from_str("a//b").is_err());
}

#[test]
fn relative_keys() {
    let k = NodeKey::from_str("a/b/c").unwrap();
    let r = k.relative(&["..", "d"]).unwrap().unwrap();
    assert_eq!(r.encode(), "a/b/d");
    let r = k.relative(&[".", "e"]).unwrap().unwrap();
    assert_eq!(r.encode(), "a/b/c/e");
    assert!(k.relative(&["..", "..", "..", ".."]).unwrap().is_none());
    assert!(k.relative(&["__x"]).is_err());
}

#[test]
fn range_requests() {
    let data = [0u8, 1, 2, 3, 4, 5, 6, 7, 8, 9];
    let r = RangeRequest::new_range(2, Some(3));
    assert_eq!(r.to_range(10), (2, 5));
    assert_eq!(r.slice(&data), &[2, 3, 4]);
    assert_eq!(r.to_string(), "2-5");
    let r = RangeRequest::new_range(4, None);
    assert_eq!(r.to_range(10), (4, 10));
    assert_eq!(r.slice_bytes(&data), vec![4, 5, 6, 7, 8, 9]);
    assert_eq!(r.to_string(), "4-");
    let r = RangeRequest::Suffix(3);
    assert_eq!(r.to_range(10), (7, 10));
    assert_eq!(r.to_string(), "-3");
    assert_eq!(RangeRequest::default().to_range(10), (0, 10));
}

#[test]
fn range_ends() {
    assert_eq!(RangeRequest::new_range(3, None).end(Some(10)), Some(10));
    assert_eq!(RangeRequest::new_range(3, Some(4)).end(Some(10)), Some(7));
    assert_eq!(RangeRequest::new_range(3, Some(4)).end(None), Some(7));
    assert_eq!(RangeRequest::new_range(3, None).end(None), None);
    assert_eq!(RangeRequest::Suffix(4).end(Some(10)), Some(10));
    assert_eq!(RangeRequest::Suffix(4).end(None), None);
    assert_eq!(RangeRequest::new_range(3, None).start(Some(10)), Some(3));
    assert_eq!(RangeRequest::Suffix(4).start(Some(10)), Some(6));
    assert_eq!(RangeRequest::Suffix(4).start(None), None);
}
