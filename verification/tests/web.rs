use zarr3::store::http::ascii_bytes;
use zarr3::store::http::find_bytes;
use zarr3::store::http::get_boundary;
use zarr3::store::http::group_members;
use zarr3::store::http::group_requests;
use zarr3::store::http::parse_content_range;
use zarr3::store::http::place_response;
use zarr3::store::http::range_header;
use zarr3::store::http::remove_header;
use zarr3::store::http::split_multipart_bytes;
use zarr3::store::http::take_piece;
use zarr3::store::http::trim;
use zarr3::store::http::ContentRangeError;
use zarr3::store::http::HttpError;
use zarr3::store::http::MultipartError;
use zarr3::store::NodeKey;
use zarr3::RangeRequest;

fn chars(s: &str) -> Vec<char> {
    s.chars().collect()
}

fn text(v: Option<Vec<char>>) -> Option<String> {
    v.map(|c| c.into_iter().collect())
}

fn answer() -> Vec<u8> {
    let mut body = Vec::new();
    body.extend_from_slice(b"ignored\r\n\r\n--B\r\n");
    body.extend_from_slice(b"Content-Type: text/plain\r\nContent-Range: bytes 0-2/10\r\n\r\nabc");
    body.extend_from_slice(b"\r\n\r\n--B\r\n");
    body.extend_from_slice(b"Content-Range: bytes 5-6/10\r\n\r\nfg");
    body
}

#[test]
fn pieces_of_a_text() {
    let s = chars("a;bc;;d");
    assert_eq!(text(take_piece(&s, ';', 0)), Some("a".to_string()));
    assert_eq!(text(take_piece(&s, ';', 1)), Some("bc".to_string()));
    assert_eq!(text(take_piece(&s, ';', 2)), Some("".to_string()));
    assert_eq!(text(take_piece(&s, ';', 3)), Some("d".to_string()));
    assert_eq!(text(take_piece(&s, ';', 4)), None);
    assert_eq!(text(take_piece(&chars(""), ';', 0)), Some("".to_string()));
    assert_eq!(text(Some(trim(&chars(" \t a b\r\n")))), Some("a b".to_string()));
    assert_eq!(text(Some(trim(&chars("   ")))), Some("".to_string()));
}

#[test]
fn boundary_of_a_content_type() {
    assert_eq!(text(get_boundary("multipart/byteranges; boundary=abc")), Some("abc".to_string()));
    assert_eq!(text(get_boundary(" multipart/byteranges ;boundary = x7 ")), Some("x7".to_string()));
    assert_eq!(get_boundary("text/plain; boundary=abc"), None);
    assert_eq!(get_boundary("multipart/byteranges"), None);
    assert_eq!(get_boundary("multipart/byteranges; charset=utf8"), None);
    assert_eq!(get_boundary("multipart/byteranges; boundary"), None);
    assert_eq!(get_boundary(""), None);
}

#[test]
fn range_of_an_answer() {
    assert_eq!(parse_content_range("bytes 0-99/1234"), Ok(Some((0, 100))));
    assert_eq!(parse_content_range("  bytes   7-7/* "), Ok(Some((7, 8))));
    assert_eq!(parse_content_range("bytes */1234"), Ok(None));
    assert_eq!(parse_content_range("items 0-1/2"), Err(ContentRangeError::InvalidPrefix));
    assert_eq!(parse_content_range(""), Err(ContentRangeError::InvalidPrefix));
    assert_eq!(parse_content_range("bytes"), Err(ContentRangeError::Malformed));
    assert_eq!(parse_content_range("bytes 0-x/5"), Err(ContentRangeError::Malformed));
    assert_eq!(parse_content_range("bytes 12/5"), Err(ContentRangeError::Malformed));
    assert_eq!(
        parse_content_range("bytes 0-99999999999999999999999/5"),
        Err(ContentRangeError::Malformed)
    );
}

#[test]
fn one_header_asks_for_all_ranges() {
    let ranges =
        [RangeRequest::new_range(0, Some(10)), RangeRequest::Suffix(5), RangeRequest::new_range(7, None)];
    assert_eq!(range_header(&ranges), "bytes=0-10, -5, 7-");
    assert_eq!(range_header(&ranges[..1]), "bytes=0-10");
    assert_eq!(range_header(&[]), "bytes=");
}

#[test]
fn requests_for_one_key_go_together() {
    let k = |s: &str| NodeKey::from_str(s).unwrap();
    let r = RangeRequest::default();
    let reqs = vec![(k("a"), r), (k("b/c"), r), (k("a"), r), (k("c"), r), (k("b/c"), r)];
    let owner = group_requests(&reqs);
    assert_eq!(owner, vec![0, 1, 0, 3, 1]);
    assert_eq!(group_members(&owner, 0), vec![0, 2]);
    assert_eq!(group_members(&owner, 1), vec![1, 4]);
    assert_eq!(group_members(&owner, 3), vec![3]);
    assert_eq!(group_members(&owner, 2), Vec::<usize>::new());
    assert_eq!(group_requests(&[]), Vec::<usize>::new());
}

#[test]
fn header_lines_are_taken_off() {
    assert_eq!(remove_header(b"Host: foo.bar\r\nAccept: */*\r\n\r\nblah"), Ok(b"blah".to_vec()));
    assert_eq!(remove_header(b"\r\nraw"), Ok(b"raw".to_vec()));
    assert_eq!(remove_header(b"Host: foo.bar\r\n"), Err(MultipartError::PartialHeader));
    assert_eq!(remove_header(b""), Err(MultipartError::PartialHeader));
    assert_eq!(remove_header(b"\x00\x01: x\r\n\r\n"), Err(MultipartError::InvalidHeader));
}

#[test]
fn answer_in_parts_is_taken_apart() {
    assert_eq!(find_bytes(b"abcabc", b"ca", 0), 2);
    assert_eq!(find_bytes(b"abcabc", b"ab", 1), 3);
    assert_eq!(find_bytes(b"abcabc", b"x", 0), 6);
    assert_eq!(find_bytes(b"abcabc", b"", 0), 6);
    let parts = split_multipart_bytes(&answer(), b"B").unwrap();
    assert_eq!(parts, vec![b"abc".to_vec(), b"fg".to_vec()]);
    assert_eq!(split_multipart_bytes(b"no boundary here", b"B"), Ok(vec![]));
    assert_eq!(split_multipart_bytes(&answer(), b"other"), Ok(vec![]));
    let mut cut = answer();
    cut.truncate(cut.len() - 6);
    assert_eq!(split_multipart_bytes(&cut, b"B"), Err(MultipartError::PartialHeader));
    assert_eq!(ascii_bytes(&chars("aZ9-")), Some(b"aZ9-".to_vec()));
    assert_eq!(ascii_bytes(&chars("é")), None);
}

#[test]
fn answers_are_placed_by_status() {
    let two = [RangeRequest::new_range(0, Some(3)), RangeRequest::new_range(5, Some(2))];
    let ct = Some("multipart/byteranges; boundary=B");
    assert_eq!(
        place_response(206, ct, answer(), &two),
        Ok(vec![Some(b"abc".to_vec()), Some(b"fg".to_vec())])
    );
    let three = [two[0], two[1], RangeRequest::Suffix(1)];
    assert_eq!(
        place_response(206, ct, answer(), &three),
        Ok(vec![Some(b"abc".to_vec()), Some(b"fg".to_vec()), None])
    );
    assert_eq!(place_response(206, None, b"abc".to_vec(), &two[..1]), Ok(vec![Some(b"abc".to_vec())]));
    assert_eq!(place_response(206, None, answer(), &two), Err(HttpError::NoContentType));
    assert_eq!(
        place_response(206, Some("text/plain"), answer(), &two),
        Err(HttpError::InvalidContentType)
    );
    assert_eq!(
        place_response(206, Some("multipart/byteranges; boundary=é"), answer(), &two),
        Err(HttpError::InvalidContentType)
    );
    let whole = b"abcdefghij".to_vec();
    assert_eq!(
        place_response(200, None, whole.clone(), &three),
        Ok(vec![Some(b"abc".to_vec()), Some(b"fg".to_vec()), Some(b"j".to_vec())])
    );
    assert_eq!(place_response(500, None, whole, &three), Err(HttpError::UnknownStatus));
}
