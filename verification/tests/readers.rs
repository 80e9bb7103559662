use zarr3::codecs::util::clamped_idx;
use zarr3::codecs::util::int_to_seekfrom;
use zarr3::codecs::util::partial_read;
use zarr3::codecs::util::pos_idx;
use zarr3::codecs::util::read_partial;
use zarr3::codecs::util::ByteReader;
use zarr3::codecs::util::Interval;
use zarr3::codecs::util::OutOfBounds;
use zarr3::codecs::util::SeekError;
use zarr3::codecs::util::SeekPos;
use zarr3::codecs::util::SubReader;
use zarr3::RangeRequest;
use zarr3::ZarrError;

#[test]
fn positions_count_from_either_end() {
    assert_eq!(pos_idx(0, 10), Ok(0));
    assert_eq!(pos_idx(3, 10), Ok(3));
    assert_eq!(pos_idx(10, 10), Ok(10));
    assert_eq!(pos_idx(11, 10), Err(OutOfBounds::AfterEnd { idx: 11, max_len: 10 }));
    assert_eq!(pos_idx(-1, 10), Ok(9));
    assert_eq!(pos_idx(-3, 10), Ok(7));
    assert_eq!(pos_idx(-10, 10), Ok(0));
    assert_eq!(pos_idx(-11, 10), Err(OutOfBounds::BeforeStart(1)));
    assert_eq!(pos_idx(-25, 10), Err(OutOfBounds::BeforeStart(15)));
    assert_eq!(
        pos_idx(isize::MIN, 5),
        Err(OutOfBounds::BeforeStart((isize::MAX as usize) + 1 - 5))
    );
    assert_eq!(pos_idx(isize::MAX, usize::MAX), Ok(isize::MAX as usize));
}

#[test]
fn positions_outside_are_clamped() {
    assert_eq!(OutOfBounds::BeforeStart(4).clamp(), 0);
    assert_eq!(OutOfBounds::AfterEnd { idx: 12, max_len: 10 }.clamp(), 10);
    assert_eq!(clamped_idx(12, 10), 10);
    assert_eq!(clamped_idx(-12, 10), 0);
    assert_eq!(clamped_idx(-2, 10), 8);
}

#[test]
fn intervals_as_offsets() {
    assert_eq!(Interval { start: 2, end: Some(5) }.as_offsets(10), (2, 5));
    assert_eq!(Interval { start: -3, end: None }.as_offsets(10), (7, 10));
    assert_eq!(Interval { start: 2, end: Some(-2) }.as_offsets(10), (2, 8));
    assert_eq!(Interval { start: 20, end: Some(30) }.as_offsets(10), (10, 10));
    assert_eq!(Interval { start: -20, end: Some(-15) }.as_offsets(10), (0, 0));
    assert_eq!(Interval { start: 5, end: Some(2) }.as_offsets(10), (5, 2));
}

#[test]
fn intervals_as_seek_positions() {
    let i = Interval { start: -4, end: Some(-1) };
    assert_eq!(i.as_seekfrom_nbytes(Some(10)), (SeekPos::End(-4), Some(9)));
    assert_eq!(i.as_seekfrom_nbytes(None), (SeekPos::End(-4), None));
    let i = Interval { start: 4, end: None };
    assert_eq!(i.as_seekfrom_nbytes(Some(10)), (SeekPos::Start(4), Some(10)));
    assert_eq!(int_to_seekfrom(0), SeekPos::Start(0));
    assert_eq!(int_to_seekfrom(-1), SeekPos::End(-1));
}

#[test]
fn readers_hand_out_parts() {
    let data: Vec<u8> = (0..10).collect();
    assert_eq!(data.read(), data);
    let parts = read_partial(
        &data,
        &[
            Interval { start: 2, end: Some(5) },
            Interval { start: -3, end: None },
            Interval { start: 4, end: Some(4) },
        ],
    );
    assert_eq!(parts, vec![vec![2, 3, 4], vec![7, 8, 9], vec![]]);
    assert_eq!(partial_read(&data, Interval { start: 1, end: Some(-7) }), Ok(vec![1, 2]));
    assert_eq!(partial_read(&data, Interval { start: 5, end: Some(2) }), Err(ZarrError::OutOfBounds));
}

#[test]
fn part_of_a_stream() {
    assert!(SubReader::new(u64::MAX, 1).is_none());
    let s = SubReader::new(10, 20).unwrap();
    assert_eq!(s.end_offset(), 30);
    assert_eq!(s.read_len(0, 8), 8);
    assert_eq!(s.read_len(15, 8), 5);
    assert_eq!(s.read_len(20, 8), 0);
    assert_eq!(s.read_len(25, 8), 0);
    assert_eq!(s.seek_target(SeekPos::Start(3), 0), Ok(13));
    assert_eq!(s.seek_target(SeekPos::End(-5), 0), Ok(25));
    assert_eq!(s.seek_target(SeekPos::End(2), 0), Ok(32));
    assert_eq!(s.seek_target(SeekPos::End(-21), 0), Err(SeekError::BeforeStart));
    assert_eq!(s.seek_target(SeekPos::Current(-2), 14), Ok(12));
    assert_eq!(s.seek_target(SeekPos::Current(-5), 14), Err(SeekError::BeforeStart));
    assert_eq!(s.seek_target(SeekPos::Current(i64::MIN), 14), Err(SeekError::BeforeStart));
    assert_eq!(s.seek_target(SeekPos::Current(1), u64::MAX), Err(SeekError::Overflow));
    assert_eq!(s.seek_target(SeekPos::Start(u64::MAX), 0), Err(SeekError::Overflow));
    let s = SubReader::from_range(100, RangeRequest::new_range(90, Some(50)));
    assert_eq!((s.offset, s.nbytes), (90, 10));
    let s = SubReader::from_range(100, RangeRequest::Suffix(7));
    assert_eq!((s.offset, s.nbytes), (93, 7));
}

#[test]
fn part_of_bytes_is_changed_in_place() {
    let mut data: Vec<u8> = (0..8).collect();
    RangeRequest::new_range(2, Some(3)).slice_mut(&mut data, &[9, 9, 9]);
    assert_eq!(data, vec![0, 1, 9, 9, 9, 5, 6, 7]);
    RangeRequest::Suffix(2).slice_mut(&mut data, &[1, 2]);
    assert_eq!(data, vec![0, 1, 9, 9, 9, 5, 1, 2]);
    RangeRequest::new_range(8, None).slice_mut(&mut data, &[]);
    assert_eq!(data.len(), 8);
}
