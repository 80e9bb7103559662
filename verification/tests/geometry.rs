use zarr3::chunk_arr::ravel_index;
use zarr3::chunk_arr::unravel_index;
use zarr3::chunk_arr::CIter;
use zarr3::chunk_arr::ChunkIter;
use zarr3::chunk_arr::ChunkIterError;
use zarr3::chunk_grid::ArrayRegion;
use zarr3::chunk_grid::ArraySlice;
use zarr3::chunk_grid::ChunkGrid;
use zarr3::chunk_grid::ChunkGridType;
use zarr3::chunk_grid::RegularChunkGrid;
use zarr3::coord::checked_numel;
use zarr3::coord::GridCoord;

fn gc(v: &[u64]) -> GridCoord {
    GridCoord::from_slice(v)
}

#[test]
fn c_iter() {
    let shape = gc(&[2, 3]);
    let v: Vec<GridCoord> = CIter::new(shape).collect();
    let expected: Vec<GridCoord> =
        vec![gc(&[0, 0]), gc(&[0, 1]), gc(&[0, 2]), gc(&[1, 0]), gc(&[1, 1]), gc(&[1, 2])];
    assert_eq!(v, expected)
}

#[test]
fn chunk_iter() {
    let c_shape = gc(&[2, 3]);
    let a_shape = gc(&[6, 6]);
    let v = ChunkIter::new_strict(c_shape.clone(), a_shape.clone()).unwrap().collect();
    let expected: Vec<([u64; 2], [u64; 2], [u64; 2])> = vec![
        ([0, 0], [0, 0], [2, 3]),
        ([0, 1], [0, 3], [2, 3]),
        ([1, 0], [2, 0], [2, 3]),
        ([1, 1], [2, 3], [2, 3]),
        ([2, 0], [4, 0], [2, 3]),
        ([2, 1], [4, 3], [2, 3]),
    ];
    assert_eq!(v.len(), expected.len());
    for (got, want) in v.iter().zip(expected.iter()) {
        assert_eq!(got.chunk_idx.as_slice(), &want.0[..]);
        assert_eq!(got.offset.as_slice(), &want.1[..]);
        assert_eq!(got.shape.as_slice(), &want.2[..]);
    }
}

#[test]
fn c_iter_without_axes_yields_nothing() {
    let mut it = CIter::new(gc(&[]));
    assert_eq!(it.remaining(), 0);
    assert!(it.next().is_none());
}

#[test]
fn c_iter_with_empty_axis_yields_nothing() {
    let v = CIter::new(gc(&[3, 0, 2])).collect();
    assert!(v.is_empty());
}

#[test]
fn chunk_iter_strict_rejects_ragged_edge() {
    let r = ChunkIter::new_strict(gc(&[4, 4]), gc(&[6, 8]));
    assert!(matches!(r, Err(ChunkIterError::NotDivisible)));
    let r = ChunkIter::new_strict(gc(&[4]), gc(&[6, 8]));
    assert!(matches!(r, Err(ChunkIterError::DimensionMismatch)));
    let r = ChunkIter::new(gc(&[0, 4]), gc(&[6, 8]));
    assert!(matches!(r, Err(ChunkIterError::ZeroChunkDimension)));
}

#[test]
fn chunk_iter_clips_the_last_chunk() {
    let v = ChunkIter::new(gc(&[4]), gc(&[10])).unwrap().collect();
    assert_eq!(v.len(), 3);
    assert_eq!(v[2].chunk_idx.as_slice(), &[2]);
    assert_eq!(v[2].offset.as_slice(), &[8]);
    assert_eq!(v[2].shape.as_slice(), &[2]);
}

#[test]
fn ravel_and_unravel_are_inverse() {
    let shape = [3u64, 4, 5];
    assert_eq!(ravel_index(&[1, 2, 3], &shape), 33);
    assert_eq!(unravel_index(33, &shape), vec![1, 2, 3]);
    for k in 0..60usize {
        let idx = unravel_index(k, &shape);
        assert_eq!(ravel_index(&idx, &shape), k);
    }
}

#[test]
fn numel_of_shapes() {
    assert_eq!(checked_numel(&[3, 4, 5]), Some(60));
    assert_eq!(checked_numel(&[]), Some(1));
    assert_eq!(checked_numel(&[7, 0]), Some(0));
    assert_eq!(checked_numel(&[u64::MAX, u64::MAX]), None);
}

#[test]
fn slice_limit_extent() {
    let s = ArraySlice::new(2, 5);
    assert_eq!(s.end(), 7);
    assert_eq!(s.limit_extent(10), Some(ArraySlice::new(2, 5)));
    assert_eq!(s.limit_extent(7), Some(ArraySlice::new(2, 5)));
    assert_eq!(s.limit_extent(4), Some(ArraySlice::new(2, 2)));
    assert_eq!(s.limit_extent(2), None);
    assert_eq!(s.limit_extent(0), None);
}

#[test]
fn region_limit_extent() {
    let r = ArrayRegion::from_offset_shape(&[1, 1], &[2, 2]);
    let c = r.limit_extent(&[4, 2]).unwrap();
    assert_eq!(c.offset().as_slice(), &[1, 1]);
    assert_eq!(c.shape().as_slice(), &[2, 1]);
    assert!(r.limit_extent(&[4, 1]).is_none());
    assert_eq!(r.end().as_slice(), &[3, 3]);
    assert_eq!(r.numel(), Some(4));
    assert!(!r.is_whole(&[2, 2]));
    assert!(r.at_origin().is_whole(&[2, 2]));
}

#[test]
fn voxel_to_chunk() {
    let g = RegularChunkGrid::new(gc(&[10, 20]));
    let (idx, off) = g.voxel_chunk(&[25, 45]);
    assert_eq!(idx.as_slice(), &[2, 2]);
    assert_eq!(off.as_slice(), &[5, 5]);
}

#[test]
fn chunks_in_region_skips_the_chunk_behind_an_exact_end() {
    let g = ChunkGridType::from_slice(&[2, 2]);
    let r = ArrayRegion::from_offset_shape(&[0, 0], &[2, 4]);
    let v = g.chunks_in_region(&r).collect();
    assert_eq!(v.len(), 2);
    assert_eq!(v[0].chunk_idx.as_slice(), &[0, 0]);
    assert_eq!(v[1].chunk_idx.as_slice(), &[0, 1]);
    assert!(v[0].chunk_region.is_whole(&[2, 2]));
    assert_eq!(v[1].out_region.offset().as_slice(), &[0, 2]);
}

#[test]
fn chunks_in_region_cover_the_region_once() {
    let g = ChunkGridType::from_slice(&[3, 4]);
    let r = ArrayRegion::from_offset_shape(&[2, 3], &[7, 9]);
    let v = g.chunks_in_region(&r).collect();
    let mut seen = vec![0u32; 7 * 9];
    let mut total: u64 = 0;
    for pc in v.iter() {
        let cs = pc.chunk_region.shape();
        let os = pc.out_region.shape();
        assert_eq!(cs.as_slice(), os.as_slice());
        assert!(cs.as_slice().iter().all(|n| *n > 0));
        total += pc.out_region.numel().unwrap();
        let o = pc.out_region.offset();
        let c = pc.chunk_region.offset();
        for i in 0..os.get(0) {
            for j in 0..os.get(1) {
                let x = o.get(0) + i;
                let y = o.get(1) + j;
                seen[(x * 9 + y) as usize] += 1;
                // The cell of the array that this cell of the share stands for.
                assert_eq!(pc.chunk_idx.get(0) * 3 + c.get(0) + i, 2 + x);
                assert_eq!(pc.chunk_idx.get(1) * 4 + c.get(1) + j, 3 + y);
            }
        }
    }
    assert_eq!(total, 63);
    assert!(seen.iter().all(|n| *n == 1));
}

#[test]
fn partial_chunks_of_the_middle_of_a_grid() {
    let g = ChunkGridType::from_slice(&[2, 2]);
    let r = ArrayRegion::from_offset_shape(&[1, 1], &[2, 2]);
    let v = g.chunks_in_region(&r).collect();
    assert_eq!(v.len(), 4);
    let idx: Vec<Vec<u64>> = v.iter().map(|p| p.chunk_idx.to_vec()).collect();
    assert_eq!(idx, vec![vec![0, 0], vec![0, 1], vec![1, 0], vec![1, 1]]);
    assert_eq!(v[0].chunk_region.offset().as_slice(), &[1, 1]);
    assert_eq!(v[0].chunk_region.shape().as_slice(), &[1, 1]);
    assert_eq!(v[3].chunk_region.offset().as_slice(), &[0, 0]);
    assert_eq!(v[3].out_region.offset().as_slice(), &[1, 1]);
}
