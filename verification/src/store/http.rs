//! What a store behind a web server decides: how requests for parts of
//! values are put together, and how the answers are taken apart.
use crate::text::chars_equal;
use crate::text::chars_of;
use crate::text::parse_decimal;
use crate::text::parse_usize;
use crate::RangeRequest;
use vstd::prelude::*;

verus! {

/// Position of the first `c` in a text; its length where there is none.
pub open spec fn first_of(s: Seq<char>, c: char) -> nat
    decreases s.len(),
{
    if s.len() == 0 {
        0
    } else if s[0] == c {
        0
    } else {
        1 + first_of(s.drop_first(), c)
    }
}

/// The first `c` of a text lies where no `c` stands before.
pub proof fn lemma_first_of(s: Seq<char>, c: char, p: int)
    requires
        0 <= p <= s.len(),
        forall|j: int| 0 <= j < p ==> s[j] != c,
        p == s.len() || s[p] == c,
    ensures
        first_of(s, c) == p,
    decreases s.len(),
{
    if s.len() > 0 && s[0] != c {
        let t = s.drop_first();
        assert forall|j: int| 0 <= j < p - 1 implies t[j] != c by {
        }
        lemma_first_of(t, c, p - 1);
    }
}

/// Position of the first `c` at or behind `from`.
pub fn find_char(s: &[char], from: usize, c: char) -> (p: usize)
    requires
        from <= s@.len(),
    ensures
        from <= p <= s@.len(),
        p == from + first_of(s@.skip(from as int), c),
{
    let mut p: usize = from;
    while p < s.len() && s[p] != c
        invariant
            from <= p <= s@.len(),
            forall|j: int| from <= j < p ==> s@[j] != c,
        decreases s@.len() - p,
    {
        p += 1;
    }
    proof {
        lemma_first_of(s@.skip(from as int), c, p - from);
    }
    p
}

/// The `k`-th of the pieces into which the character `c` cuts a text;
/// none where the text has fewer pieces.
pub open spec fn piece(s: Seq<char>, c: char, k: nat) -> Option<Seq<char>>
    decreases k,
{
    let p = first_of(s, c);
    if k == 0 {
        Some(s.take(p as int))
    } else if p >= s.len() {
        None
    } else {
        piece(s.skip(p as int + 1), c, (k - 1) as nat)
    }
}

fn copy_chars(s: &[char], from: usize, to: usize) -> (out: Vec<char>)
    requires
        from <= to <= s@.len(),
    ensures
        out@ == s@.subrange(from as int, to as int),
{
    let mut out: Vec<char> = Vec::new();
    let mut i: usize = from;
    while i < to
        invariant
            from <= i <= to,
            to <= s@.len(),
            out@ == s@.subrange(from as int, i as int),
        decreases to - i,
    {
        out.push(s[i]);
        assert(s@.subrange(from as int, i + 1) =~= s@.subrange(from as int, i as int).push(
            s@[i as int],
        ));
        i += 1;
    }
    out
}

/// The `k`-th of the pieces into which the character `c` cuts a text.
pub fn take_piece(s: &[char], c: char, k: usize) -> (r: Option<Vec<char>>)
    ensures
        r is Some <==> piece(s@, c, k as nat) is Some,
        r matches Some(v) ==> piece(s@, c, k as nat) == Some(v@),
{
    let mut start: usize = 0;
    let mut j: usize = 0;
    assert(s@.skip(0) =~= s@);
    while j < k
        invariant
            j <= k,
            start <= s@.len(),
            piece(s@, c, k as nat) == piece(s@.skip(start as int), c, (k - j) as nat),
        decreases k - j,
    {
        let p = find_char(s, start, c);
        if p >= s.len() {
            return None;
        }
        assert(s@.skip(start as int).skip(p - start + 1) =~= s@.skip(p + 1));
        start = p + 1;
        j += 1;
    }
    let p = find_char(s, start, c);
    let out = copy_chars(s, start, p);
    Some(out)
}

/// Whether a character is blank: a space, a tab or the end of a line.
pub open spec fn is_space(c: char) -> bool {
    c == ' ' || c == '\t' || c == '\n' || c == '\r'
}

/// A text without the blanks at its ends.
pub open spec fn trimmed(s: Seq<char>) -> Seq<char>
    decreases s.len(),
{
    if s.len() == 0 {
        s
    } else if is_space(s[0]) {
        trimmed(s.drop_first())
    } else if is_space(s.last()) {
        trimmed(s.drop_last())
    } else {
        s
    }
}

fn blank(c: char) -> (b: bool)
    ensures
        b == is_space(c),
{
    c == ' ' || c == '\t' || c == '\n' || c == '\r'
}

/// A text without the blanks at its ends.
pub fn trim(s: &[char]) -> (out: Vec<char>)
    ensures
        out@ == trimmed(s@),
{
    let mut lo: usize = 0;
    let mut hi: usize = s.len();
    assert(s@.subrange(0, s@.len() as int) =~= s@);
    while lo < hi && blank(s[lo])
        invariant
            lo <= hi <= s@.len(),
            trimmed(s@) == trimmed(s@.subrange(lo as int, hi as int)),
        decreases hi - lo,
    {
        assert(s@.subrange(lo as int, hi as int).drop_first() =~= s@.subrange(
            lo + 1,
            hi as int,
        ));
        lo += 1;
    }
    while lo < hi && blank(s[hi - 1])
        invariant
            lo <= hi <= s@.len(),
            trimmed(s@) == trimmed(s@.subrange(lo as int, hi as int)),
            lo < hi ==> !is_space(s@[lo as int]),
        decreases hi - lo,
    {
        assert(s@.subrange(lo as int, hi as int).drop_last() =~= s@.subrange(
            lo as int,
            hi - 1,
        ));
        hi -= 1;
    }
    proof {
        let t = s@.subrange(lo as int, hi as int);
        if lo < hi {
        }
    }
    copy_chars(s, lo, hi)
}

/// The kind of content that holds several parts of a value.
pub open spec fn byteranges_kind() -> Seq<char> {
    "multipart/byteranges"@
}

/// The word before the text that stands between the parts.
pub open spec fn boundary_word() -> Seq<char> {
    "boundary"@
}

/// The text that stands between the parts of content of the given type:
/// the type must be `multipart/byteranges`, followed by `;` and by
/// `boundary=` with the text. Blanks around each of these are passed
/// over. None for any other type.
pub open spec fn spec_boundary(content_type: Seq<char>) -> Option<Seq<char>> {
    if trimmed(piece(content_type, ';', 0)->Some_0) != byteranges_kind() {
        None
    } else {
        match piece(content_type, ';', 1) {
            None => None,
            Some(b) => if trimmed(piece(trimmed(b), '=', 0)->Some_0) != boundary_word() {
                None
            } else {
                match piece(trimmed(b), '=', 1) {
                    None => None,
                    Some(t) => Some(trimmed(t)),
                }
            },
        }
    }
}

/// The text that stands between the parts of content of the given type.
pub fn get_boundary(content_type: &str) -> (r: Option<Vec<char>>)
    ensures
        r is Some <==> spec_boundary(content_type@) is Some,
        r matches Some(v) ==> spec_boundary(content_type@) == Some(v@),
{
    let chars = chars_of(content_type);
    let kind = match take_piece(chars.as_slice(), ';', 0) {
        Some(k) => trim(k.as_slice()),
        None => {
            return None;
        },
    };
    proof {
        reveal_strlit("multipart/byteranges");
        reveal_strlit("boundary");
    }
    let want = chars_of("multipart/byteranges");
    if !chars_equal(kind.as_slice(), want.as_slice()) {
        return None;
    }
    let bound = match take_piece(chars.as_slice(), ';', 1) {
        Some(b) => trim(b.as_slice()),
        None => {
            return None;
        },
    };
    let word = match take_piece(bound.as_slice(), '=', 0) {
        Some(w) => trim(w.as_slice()),
        None => {
            return None;
        },
    };
    let want_word = chars_of("boundary");
    if !chars_equal(word.as_slice(), want_word.as_slice()) {
        return None;
    }
    match take_piece(bound.as_slice(), '=', 1) {
        Some(t) => Some(trim(t.as_slice())),
        None => None,
    }
}

/// Why the range of an answer cannot be read.
#[derive(Clone, Copy, Debug, PartialEq, Eq, Structural)]
pub enum ContentRangeError {
    /// The range is not counted in bytes.
    InvalidPrefix,
    /// The range does not read `first-last`, with numbers that fit.
    Malformed,
}

/// The word before a range that is counted in bytes.
pub open spec fn bytes_word() -> Seq<char> {
    "bytes"@
}

/// The range of a text `first-last/...`: none where the text starts with
/// `*`.
pub open spec fn spec_first_last(range: Seq<char>) -> Result<Option<(nat, nat)>, ContentRangeError> {
    let pair = piece(range, '/', 0)->Some_0;
    if pair == seq!['*'] {
        Ok(None)
    } else {
        match piece(pair, '-', 1) {
            None => Err(ContentRangeError::Malformed),
            Some(last) => match (parse_decimal(piece(pair, '-', 0)->Some_0), parse_decimal(last)) {
                (Some(a), Some(b)) => if a <= usize::MAX && b < usize::MAX {
                    Ok(Some((a, b + 1)))
                } else {
                    Err(ContentRangeError::Malformed)
                },
                _ => Err(ContentRangeError::Malformed),
            },
        }
    }
}

/// Where the bytes of an answer start and end in the whole value, as the
/// answer's range says: `bytes first-last/length` gives `first` and
/// `last + 1`; `bytes */length` gives none.
pub open spec fn spec_content_range(value: Seq<char>) -> Result<
    Option<(nat, nat)>,
    ContentRangeError,
> {
    let v = trimmed(value);
    if piece(v, ' ', 0)->Some_0 != bytes_word() {
        Err(ContentRangeError::InvalidPrefix)
    } else {
        match piece(v, ' ', 1) {
            None => Err(ContentRangeError::Malformed),
            Some(_) => spec_first_last(
                piece(trimmed(v.skip(first_of(v, ' ') as int)), ' ', 0)->Some_0,
            ),
        }
    }
}

/// Where the bytes of an answer start and end in the whole value.
pub fn parse_content_range(range_value: &str) -> (r: Result<
    Option<(usize, usize)>,
    ContentRangeError,
>)
    ensures
        match spec_content_range(range_value@) {
            Ok(Some((a, b))) => r == Ok::<Option<(usize, usize)>, ContentRangeError>(
                Some((a as usize, b as usize)),
            ),
            Ok(None) => r == Ok::<Option<(usize, usize)>, ContentRangeError>(None),
            Err(e) => r == Err::<Option<(usize, usize)>, ContentRangeError>(e),
        },
{
    let chars = chars_of(range_value);
    let v = trim(chars.as_slice());
    proof {
        reveal_strlit("bytes");
    }
    let unit = match take_piece(v.as_slice(), ' ', 0) {
        Some(u) => u,
        None => {
            return Err(ContentRangeError::InvalidPrefix);
        },
    };
    let want = chars_of("bytes");
    if !chars_equal(unit.as_slice(), want.as_slice()) {
        return Err(ContentRangeError::InvalidPrefix);
    }
    if take_piece(v.as_slice(), ' ', 1).is_none() {
        return Err(ContentRangeError::Malformed);
    }
    let p = find_char(v.as_slice(), 0, ' ');
    assert(v@.skip(0) =~= v@);
    let tail = copy_chars(v.as_slice(), p, v.len());
    let rest = trim(tail.as_slice());
    let range = match take_piece(rest.as_slice(), ' ', 0) {
        Some(x) => x,
        None => {
            return Err(ContentRangeError::Malformed);
        },
    };
    let pair = match take_piece(range.as_slice(), '/', 0) {
        Some(x) => x,
        None => {
            return Err(ContentRangeError::Malformed);
        },
    };
    if pair.len() == 1 && pair[0] == '*' {
        assert(pair@ =~= seq!['*']);
        return Ok(None);
    }
    let first = match take_piece(pair.as_slice(), '-', 0) {
        Some(x) => x,
        None => {
            return Err(ContentRangeError::Malformed);
        },
    };
    let last = match take_piece(pair.as_slice(), '-', 1) {
        Some(x) => x,
        None => {
            return Err(ContentRangeError::Malformed);
        },
    };
    match (parse_usize(first.as_slice()), parse_usize(last.as_slice())) {
        (Some(a), Some(b)) => {
            if b == usize::MAX {
                Err(ContentRangeError::Malformed)
            } else {
                Ok(Some((a, b + 1)))
            }
        },
        _ => Err(ContentRangeError::Malformed),
    }
}

/// Whether `bound` stands in `content` at position `p`.
pub open spec fn stands_at(content: Seq<u8>, bound: Seq<u8>, p: int) -> bool {
    0 <= p && p + bound.len() <= content.len() && content.subrange(p, p + bound.len()) == bound
}

/// The first position at or behind `from` where `bound` stands in
/// `content`; the length of `content` where there is none.
pub open spec fn find_from(content: Seq<u8>, bound: Seq<u8>, from: int) -> int
    decreases content.len() - from,
{
    if bound.len() == 0 || from < 0 || from + bound.len() > content.len() {
        content.len() as int
    } else if stands_at(content, bound, from) {
        from
    } else {
        find_from(content, bound, from + 1)
    }
}

fn bytes_at(content: &[u8], bound: &[u8], p: usize) -> (b: bool)
    ensures
        b == stands_at(content@, bound@, p as int),
{
    let m = bound.len();
    if m > content.len() || p > content.len() - m {
        return false;
    }
    let n = content.len();
    let mut i: usize = 0;
    while i < m
        invariant
            i <= m,
            m == bound@.len(),
            n == content@.len(),
            p + m <= n,
            forall|j: int| 0 <= j < i ==> content@[p + j] == bound@[j],
        decreases m - i,
    {
        if content[p + i] != bound[i] {
            return false;
        }
        i += 1;
    }
    assert(content@.subrange(p as int, p + m) =~= bound@);
    true
}

/// The first position at or behind `from` where `bound` stands in
/// `content`; the length of `content` where there is none.
pub fn find_bytes(content: &[u8], bound: &[u8], from: usize) -> (p: usize)
    requires
        from <= content@.len(),
    ensures
        p == find_from(content@, bound@, from as int),
        from <= p <= content@.len(),
        p < content@.len() ==> stands_at(content@, bound@, p as int),
{
    let n = content.len();
    let m = bound.len();
    if m == 0 {
        return n;
    }
    let mut p: usize = from;
    while p < n && m <= n - p
        invariant
            from <= p <= n,
            n == content@.len(),
            m == bound@.len(),
            m > 0,
            find_from(content@, bound@, from as int) == find_from(content@, bound@, p as int),
        decreases n - p,
    {
        if bytes_at(content, bound, p) {
            return p;
        }
        p += 1;
    }
    n
}

/// The stretches of `content` from `from` on between the places where
/// `bound` stands; the last one goes on to the end.
pub open spec fn raw_parts(content: Seq<u8>, bound: Seq<u8>, from: int) -> Seq<Seq<u8>>
    decreases content.len() - from,
{
    let p = find_from(content, bound, from);
    if bound.len() == 0 || from < 0 || from > content.len() || p < from {
        Seq::empty()
    } else if p + bound.len() > content.len() {
        seq![content.skip(from)]
    } else {
        seq![content.subrange(from, p)] + raw_parts(content, bound, p + bound.len())
    }
}

/// The parts of content that is cut by `bound`: what stands before the
/// first `bound` is no part, and without a `bound` there is none.
pub open spec fn multipart_parts(content: Seq<u8>, bound: Seq<u8>) -> Seq<Seq<u8>> {
    let p = find_from(content, bound, 0);
    if bound.len() == 0 || p >= content.len() {
        Seq::empty()
    } else {
        raw_parts(content, bound, p + bound.len())
    }
}

/// What stands between the parts of an answer, for the text that its
/// content type declares: an empty line, two hyphens, the text and the
/// end of the line.
pub open spec fn delimiter(boundary: Seq<u8>) -> Seq<u8> {
    seq![13u8, 10u8, 13u8, 10u8, 45u8, 45u8] + boundary + seq![13u8, 10u8]
}

/// Where the header lines at the start of `content` end, as the parser
/// of headers finds it: the position behind the empty line that ends
/// them; no position where the bytes end before the header lines do; and
/// nothing at all where the bytes are no header lines.
pub uninterp spec fn header_end_of(content: Seq<u8>) -> Option<Option<usize>>;

/// `httparse::parse_headers`, with room for fifty header lines: where
/// the header lines at the start of the bytes end. The position that the
/// parser gives is one of the buffer that it was given.
#[verifier::external_body]
fn parse_header_end(content: &[u8]) -> (r: Option<Option<usize>>)
    ensures
        r == header_end_of(content@),
        r matches Some(Some(n)) ==> n <= content@.len(),
{
    let mut buf = [httparse::EMPTY_HEADER; 50];
    match httparse::parse_headers(content, &mut buf) {
        Ok(httparse::Status::Complete((idx, _))) => Some(Some(idx)),
        Ok(httparse::Status::Partial) => Some(None),
        Err(_) => None,
    }
}

/// Why an answer in several parts cannot be taken apart.
#[derive(Clone, Copy, Debug, PartialEq, Eq, Structural)]
pub enum MultipartError {
    /// A part does not start with header lines.
    InvalidHeader,
    /// The header lines of a part do not end.
    PartialHeader,
}

/// A part without its header lines.
pub open spec fn strip_header(part: Seq<u8>) -> Result<Seq<u8>, MultipartError> {
    match header_end_of(part) {
        Some(Some(n)) => if n <= part.len() {
            Ok(part.skip(n as int))
        } else {
            Err(MultipartError::InvalidHeader)
        },
        Some(None) => Err(MultipartError::PartialHeader),
        None => Err(MultipartError::InvalidHeader),
    }
}

/// The parts without their header lines; the error of the first part
/// that has none.
pub open spec fn strip_all(parts: Seq<Seq<u8>>) -> Result<Seq<Seq<u8>>, MultipartError>
    decreases parts.len(),
{
    if parts.len() == 0 {
        Ok(Seq::empty())
    } else {
        match strip_all(parts.drop_last()) {
            Err(e) => Err(e),
            Ok(v) => match strip_header(parts.last()) {
                Err(e) => Err(e),
                Ok(b) => Ok(v.push(b)),
            },
        }
    }
}

/// Once a part fails, the parts behind it change nothing.
pub proof fn lemma_strip_fails(a: Seq<Seq<u8>>, b: Seq<Seq<u8>>)
    requires
        strip_all(a) is Err,
    ensures
        strip_all(a + b) == strip_all(a),
    decreases b.len(),
{
    if b.len() == 0 {
    } else {
        lemma_strip_fails(a, b.drop_last());
        assert((a + b).drop_last() =~= a + b.drop_last());
    }
}

/// A part without its header lines.
pub fn remove_header(content: &[u8]) -> (r: Result<Vec<u8>, MultipartError>)
    ensures
        r matches Ok(v) ==> strip_header(content@) == Ok::<Seq<u8>, MultipartError>(v@),
        r matches Err(e) ==> strip_header(content@) == Err::<Seq<u8>, MultipartError>(e),
{
    match parse_header_end(content) {
        Some(Some(n)) => {
            let out = crate::codecs::fwrite::copy_range(content, n, content.len());
            Ok(out)
        },
        Some(None) => Err(MultipartError::PartialHeader),
        None => Err(MultipartError::InvalidHeader),
    }
}

/// The bytes of every item.
pub open spec fn parts_view(v: Seq<Vec<u8>>) -> Seq<Seq<u8>> {
    Seq::new(v.len(), |i: int| v[i]@)
}

/// The bytes that stand between the parts of an answer.
pub fn delimiter_bytes(boundary: &[u8]) -> (d: Vec<u8>)
    ensures
        d@ == delimiter(boundary@),
{
    let mut d: Vec<u8> = vec![13u8, 10u8, 13u8, 10u8, 45u8, 45u8];
    crate::codecs::fwrite::append_bytes(&mut d, boundary);
    d.push(13u8);
    d.push(10u8);
    d
}

/// Takes an answer in several parts apart: the parts between the places
/// where the boundary stands, each without its header lines.
pub fn split_multipart_bytes(content: &[u8], boundary: &[u8]) -> (r: Result<
    Vec<Vec<u8>>,
    MultipartError,
>)
    ensures
        r matches Ok(v) ==> strip_all(multipart_parts(content@, delimiter(boundary@))) == Ok::<
            Seq<Seq<u8>>,
            MultipartError,
        >(parts_view(v@)),
        r matches Err(e) ==> strip_all(multipart_parts(content@, delimiter(boundary@))) == Err::<
            Seq<Seq<u8>>,
            MultipartError,
        >(e),
{
    let bound = delimiter_bytes(boundary);
    let m = bound.len();
    let n = content.len();
    let mut out: Vec<Vec<u8>> = Vec::new();
    let first = find_bytes(content, bound.as_slice(), 0);
    if first >= n {
        assert(parts_view(out@) =~= Seq::<Seq<u8>>::empty());
        return Ok(out);
    }
    let mut from: usize = first + m;
    let ghost all = multipart_parts(content@, bound@);
    let ghost raw: Seq<Seq<u8>> = Seq::empty();
    let mut open: bool = true;
    assert(parts_view(out@) =~= Seq::<Seq<u8>>::empty());
    while open
        invariant
            n == content@.len(),
            m == bound@.len(),
            m > 0,
            bound@ == delimiter(boundary@),
            all == multipart_parts(content@, bound@),
            from <= n,
            open ==> all == raw + raw_parts(content@, bound@, from as int),
            !open ==> all == raw,
            strip_all(raw) == Ok::<Seq<Seq<u8>>, MultipartError>(parts_view(out@)),
        decreases n - from + (if open { 1int } else { 0int }),
    {
        let p = find_bytes(content, bound.as_slice(), from);
        let part = crate::codecs::fwrite::copy_range(content, from, p);
        let ghost rest = if p >= n {
            Seq::<Seq<u8>>::empty()
        } else {
            raw_parts(content@, bound@, p + m)
        };
        proof {
            assert(raw + (seq![part@] + rest) =~= raw.push(part@) + rest);
            assert(raw.push(part@).drop_last() =~= raw);
        }
        match remove_header(part.as_slice()) {
            Err(e) => {
                proof {
                    lemma_strip_fails(raw.push(part@), rest);
                }
                return Err(e);
            },
            Ok(body) => {
                let ghost before = out@;
                out.push(body);
                proof {
                    assert(parts_view(out@) =~= parts_view(before).push(body@));
                    raw = raw.push(part@);
                }
            },
        }
        if p >= n {
            open = false;
        } else {
            from = p + m;
        }
    }
    Ok(out)
}

/// The bytes of a text of characters of one byte each; none where a
/// character needs more.
pub open spec fn spec_ascii(s: Seq<char>) -> Option<Seq<u8>> {
    if forall|i: int| 0 <= i < s.len() ==> (#[trigger] s[i]) as u32 <= 127 {
        Some(Seq::new(s.len(), |i: int| (s[i] as u32) as u8))
    } else {
        None
    }
}

/// The bytes of a text of characters of one byte each.
pub fn ascii_bytes(s: &[char]) -> (r: Option<Vec<u8>>)
    ensures
        r is Some <==> spec_ascii(s@) is Some,
        r matches Some(v) ==> spec_ascii(s@) == Some(v@),
{
    let mut out: Vec<u8> = Vec::new();
    let mut i: usize = 0;
    while i < s.len()
        invariant
            i <= s@.len(),
            out@.len() == i,
            forall|j: int|
                0 <= j < i ==> (#[trigger] s@[j]) as u32 <= 127 && out@[j] == (s@[j] as u32) as u8,
        decreases s@.len() - i,
    {
        let c: u32 = s[i] as u32;
        if c > 127 {
            return None;
        }
        out.push(c as u8);
        i += 1;
    }
    Some(out)
}

/// The text of one range in a request, see [`RangeRequest::to_string`].
pub open spec fn range_text(r: RangeRequest) -> Seq<char> {
    match r {
        RangeRequest::Range { offset, size: Some(sz) } => crate::text::decimal(offset as nat)
            + seq!['-'] + crate::text::decimal((offset + sz) as nat),
        RangeRequest::Range { offset, size: None } => crate::text::decimal(offset as nat) + seq![
            '-',
        ],
        RangeRequest::Suffix(n) => seq!['-'] + crate::text::decimal(n as nat),
    }
}

/// The texts of the first `n` ranges, with a comma and a space between
/// them.
pub open spec fn joined_ranges(ranges: Seq<RangeRequest>, n: nat) -> Seq<char>
    decreases n,
{
    if n == 0 || n > ranges.len() {
        Seq::empty()
    } else if n == 1 {
        range_text(ranges[0])
    } else {
        joined_ranges(ranges, (n - 1) as nat) + seq![',', ' '] + range_text(ranges[n - 1])
    }
}

/// Whether the end of every range fits the numbers of the machine.
pub open spec fn ranges_fit(ranges: Seq<RangeRequest>) -> bool {
    forall|i: int|
        0 <= i < ranges.len() ==> (#[trigger] ranges[i] matches RangeRequest::Range {
            offset,
            size: Some(sz),
        } ==> offset + sz <= usize::MAX)
}

/// The one header that asks for all the given ranges of a value: `bytes=`
/// and the ranges, with a comma and a space between them.
pub fn range_header(ranges: &[RangeRequest]) -> (s: String)
    requires
        ranges_fit(ranges@),
    ensures
        s@ == "bytes="@ + joined_ranges(ranges@, ranges@.len()),
{
    let mut out: Vec<char> = chars_of("bytes=");
    let ghost head = out@;
    let mut i: usize = 0;
    while i < ranges.len()
        invariant
            i <= ranges@.len(),
            ranges_fit(ranges@),
            out@ == head + joined_ranges(ranges@, i as nat),
        decreases ranges@.len() - i,
    {
        if i > 0 {
            out.push(',');
            out.push(' ');
        }
        let t = ranges[i].to_string();
        let tc = chars_of(t.as_str());
        crate::text::append_chars(&mut out, tc.as_slice());
        proof {
            if i == 0 {
            } else {
            }
        }
        i += 1;
    }
    crate::text::string_from_chars(out.as_slice())
}

/// For every request the first request for the same key. The requests
/// for one key are made together, in one request to the server.
pub fn group_requests(key_ranges: &[(crate::store::NodeKey, RangeRequest)]) -> (owner: Vec<usize>)
    ensures
        owner@.len() == key_ranges@.len(),
        forall|i: int|
            0 <= i < owner@.len() ==> {
                &&& (#[trigger] owner@[i]) <= i
                &&& key_ranges@[owner@[i] as int].0@ == key_ranges@[i].0@
                &&& forall|j: int| 0 <= j < owner@[i] ==> key_ranges@[j].0@ != key_ranges@[i].0@
            },
{
    let mut owner: Vec<usize> = Vec::new();
    let mut i: usize = 0;
    while i < key_ranges.len()
        invariant
            i <= key_ranges@.len(),
            owner@.len() == i,
            forall|k: int|
                0 <= k < i ==> {
                    &&& (#[trigger] owner@[k]) <= k
                    &&& key_ranges@[owner@[k] as int].0@ == key_ranges@[k].0@
                    &&& forall|j: int| 0 <= j < owner@[k] ==> key_ranges@[j].0@ != key_ranges@[k].0@
                },
        decreases key_ranges@.len() - i,
    {
        let mut j: usize = 0;
        while j < i && !crate::store::keys_equal(&key_ranges[j].0, &key_ranges[i].0)
            invariant
                j <= i < key_ranges@.len(),
                forall|k: int| 0 <= k < j ==> key_ranges@[k].0@ != key_ranges@[i as int].0@,
            decreases i - j,
        {
            j += 1;
        }
        owner.push(j);
        i += 1;
    }
    owner
}

/// The requests that are made together with the request `leader`, in
/// their order.
pub fn group_members(owner: &[usize], leader: usize) -> (members: Vec<usize>)
    ensures
        forall|k: int| 0 <= k < members@.len() ==> (#[trigger] members@[k]) < owner@.len()
            && owner@[members@[k] as int] == leader,
        forall|a: int, b: int| 0 <= a < b < members@.len() ==> members@[a] < members@[b],
        forall|i: int|
            0 <= i < owner@.len() && owner@[i] == leader ==> members@.contains(i as usize),
{
    let mut members: Vec<usize> = Vec::new();
    let mut i: usize = 0;
    while i < owner.len()
        invariant
            i <= owner@.len(),
            forall|k: int| 0 <= k < members@.len() ==> (#[trigger] members@[k]) < i
                && owner@[members@[k] as int] == leader,
            forall|a: int, b: int| 0 <= a < b < members@.len() ==> members@[a] < members@[b],
            forall|k: int|
                0 <= k < i && owner@[k] == leader ==> members@.contains(k as usize),
        decreases owner@.len() - i,
    {
        if owner[i] == leader {
            let ghost before = members@;
            members.push(i);
            proof {
                assert forall|k: int|
                    0 <= k < i + 1 && owner@[k] == leader implies members@.contains(
                    k as usize,
                ) by {
                    if k < i {
                        let w = choose|w: int| 0 <= w < before.len() && before[w] == k as usize;
                        assert(members@[w] == k as usize);
                    } else {
                        assert(members@[members@.len() - 1] == i);
                    }
                }
            }
        }
        i += 1;
    }
    members
}

/// Why the answer of a server gives no parts of a value.
#[derive(Clone, Copy, Debug, PartialEq, Eq, Structural)]
pub enum HttpError {
    /// An answer in several parts does not say what it is.
    NoContentType,
    /// An answer in several parts names no boundary between them.
    InvalidContentType,
    /// An answer in several parts cannot be taken apart.
    Multipart(MultipartError),
    /// The answer has a status that is not known here.
    UnknownStatus,
}

/// The status of an answer that holds the parts asked for.
pub const PARTIAL_CONTENT: u16 = 206u16;

/// The status of an answer that holds the whole value.
pub const WHOLE_CONTENT: u16 = 200u16;

/// For each range of a request what the answer holds for it. An answer
/// with the status 206 holds the parts asked for: the body itself for one
/// range, else the parts between the boundary that the content type
/// declares, in the order of the ranges; a range for which no part
/// came gets nothing. An answer with the status 200 holds the whole
/// value, and every range is cut out of it here.
pub open spec fn spec_place(
    status: u16,
    content_type: Option<Seq<char>>,
    body: Seq<u8>,
    ranges: Seq<RangeRequest>,
) -> Result<Seq<Option<Seq<u8>>>, HttpError> {
    if status == PARTIAL_CONTENT {
        if ranges.len() == 1 {
            Ok(seq![Some(body)])
        } else {
            match content_type {
                None => Err(HttpError::NoContentType),
                Some(ct) => match spec_boundary(ct) {
                    None => Err(HttpError::InvalidContentType),
                    Some(b) => match spec_ascii(b) {
                        None => Err(HttpError::InvalidContentType),
                        Some(bb) => match strip_all(multipart_parts(body, delimiter(bb))) {
                            Err(e) => Err(HttpError::Multipart(e)),
                            Ok(parts) => Ok(
                                Seq::new(
                                    ranges.len(),
                                    |i: int|
                                        if i < parts.len() {
                                            Some(parts[i])
                                        } else {
                                            None
                                        },
                                ),
                            ),
                        },
                    },
                },
            }
        }
    } else if status == WHOLE_CONTENT {
        Ok(
            Seq::new(
                ranges.len(),
                |i: int|
                    Some(
                        body.subrange(
                            ranges[i].spec_to_range(body.len()).0 as int,
                            ranges[i].spec_to_range(body.len()).1 as int,
                        ),
                    ),
            ),
        )
    } else {
        Err(HttpError::UnknownStatus)
    }
}

/// The bytes of every item that holds some.
pub open spec fn places_view(v: Seq<Option<Vec<u8>>>) -> Seq<Option<Seq<u8>>> {
    Seq::new(
        v.len(),
        |i: int|
            match v[i] {
                Some(b) => Some(b@),
                None => None,
            },
    )
}

/// For each range of a request what the answer of the server holds for
/// it, see [`spec_place`].
pub fn place_response(
    status: u16,
    content_type: Option<&str>,
    body: Vec<u8>,
    ranges: &[RangeRequest],
) -> (r: Result<Vec<Option<Vec<u8>>>, HttpError>)
    ensures
        r matches Ok(v) ==> spec_place(
            status,
            match content_type {
                Some(c) => Some(c@),
                None => None,
            },
            body@,
            ranges@,
        ) == Ok::<Seq<Option<Seq<u8>>>, HttpError>(places_view(v@)),
        r matches Err(e) ==> spec_place(
            status,
            match content_type {
                Some(c) => Some(c@),
                None => None,
            },
            body@,
            ranges@,
        ) == Err::<Seq<Option<Seq<u8>>>, HttpError>(e),
{
    let mut out: Vec<Option<Vec<u8>>> = Vec::new();
    if status == PARTIAL_CONTENT {
        if ranges.len() == 1 {
            out.push(Some(body));
            assert(places_view(out@) =~= seq![Some(body@)]);
            return Ok(out);
        }
        let ct = match content_type {
            Some(c) => c,
            None => {
                return Err(HttpError::NoContentType);
            },
        };
        let bound = match get_boundary(ct) {
            Some(b) => b,
            None => {
                return Err(HttpError::InvalidContentType);
            },
        };
        let bytes = match ascii_bytes(bound.as_slice()) {
            Some(b) => b,
            None => {
                return Err(HttpError::InvalidContentType);
            },
        };
        let mut parts = match split_multipart_bytes(body.as_slice(), bytes.as_slice()) {
            Ok(p) => p,
            Err(e) => {
                return Err(HttpError::Multipart(e));
            },
        };
        let ghost want = parts_view(parts@);
        let mut i: usize = 0;
        while i < ranges.len()
            invariant
                i <= ranges@.len(),
                out@.len() == i,
                parts@.len() == want.len(),
                forall|j: int| i <= j < parts@.len() ==> (#[trigger] parts@[j])@ == want[j],
                forall|j: int|
                    0 <= j < i ==> (#[trigger] places_view(out@)[j]) == if j < want.len() {
                        Some(want[j])
                    } else {
                        None
                    },
            decreases ranges@.len() - i,
        {
            let ghost before = out@;
            if i < parts.len() {
                let mut taken: Vec<u8> = Vec::new();
                std::mem::swap(&mut taken, &mut parts[i]);
                out.push(Some(taken));
            } else {
                out.push(None);
            }
            proof {
                assert forall|j: int| 0 <= j < i + 1 implies (#[trigger] places_view(out@)[j])
                    == if j < want.len() {
                    Some(want[j])
                } else {
                    None
                } by {
                    if j < i {
                        assert(places_view(before)[j] == places_view(out@)[j]);
                    }
                }
            }
            i += 1;
        }
        assert(places_view(out@) =~= Seq::new(
            ranges@.len(),
            |i: int|
                if i < want.len() {
                    Some(want[i])
                } else {
                    None
                },
        ));
        Ok(out)
    } else if status == WHOLE_CONTENT {
        let mut i: usize = 0;
        while i < ranges.len()
            invariant
                i <= ranges@.len(),
                out@.len() == i,
                forall|j: int|
                    0 <= j < i ==> (#[trigger] places_view(out@)[j]) == Some(
                        body@.subrange(
                            ranges@[j].spec_to_range(body@.len()).0 as int,
                            ranges@[j].spec_to_range(body@.len()).1 as int,
                        ),
                    ),
            decreases ranges@.len() - i,
        {
            let ghost before = out@;
            let (a, b) = ranges[i].to_range(body.len());
            out.push(Some(crate::codecs::fwrite::copy_range(body.as_slice(), a, b)));
            proof {
                assert forall|j: int| 0 <= j < i + 1 implies (#[trigger] places_view(out@)[j])
                    == Some(
                    body@.subrange(
                        ranges@[j].spec_to_range(body@.len()).0 as int,
                        ranges@[j].spec_to_range(body@.len()).1 as int,
                    ),
                ) by {
                    if j < i {
                        assert(places_view(before)[j] == places_view(out@)[j]);
                    }
                }
            }
            i += 1;
        }
        assert(places_view(out@) =~= Seq::new(
            ranges@.len(),
            |i: int|
                Some(
                    body@.subrange(
                        ranges@[i].spec_to_range(body@.len()).0 as int,
                        ranges@[i].spec_to_range(body@.len()).1 as int,
                    ),
                ),
        ));
        Ok(out)
    } else {
        Err(HttpError::UnknownStatus)
    }
}

} // verus!
