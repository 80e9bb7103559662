//! Floating-point values as bit patterns, and how they are written in
//! metadata.

use crate::text::chars_equal;
use crate::text::chars_of;
use crate::text::string_from_chars;
use vstd::prelude::*;

verus! {

/// Bits of the NaN that metadata writes as `"NaN"` for 32-bit floats: sign
/// 0, every bit of the exponent 1, only the first bit of the mantissa 1.
pub const NAN32_BITS: u32 = 0x7fc0_0000u32;

/// Bits of positive infinity for 32-bit floats.
pub const INF32_BITS: u32 = 0x7f80_0000u32;

/// Bits of negative infinity for 32-bit floats.
pub const NEG_INF32_BITS: u32 = 0xff80_0000u32;

/// Bits of the NaN that metadata writes as `"NaN"` for 64-bit floats.
pub const NAN64_BITS: u64 = 0x7ff8_0000_0000_0000u64;

/// Bits of positive infinity for 64-bit floats.
pub const INF64_BITS: u64 = 0x7ff0_0000_0000_0000u64;

/// Bits of negative infinity for 64-bit floats.
pub const NEG_INF64_BITS: u64 = 0xfff0_0000_0000_0000u64;

/// The bits of the 32-bit NaN of metadata.
pub fn nan32() -> (b: u32)
    ensures
        b == NAN32_BITS,
        is_nan32(b),
{
    assert(is_nan32(NAN32_BITS)) by (bit_vector);
    NAN32_BITS
}

/// The bits of the 64-bit NaN of metadata.
pub fn nan64() -> (b: u64)
    ensures
        b == NAN64_BITS,
        is_nan64(b),
{
    assert(is_nan64(NAN64_BITS)) by (bit_vector);
    NAN64_BITS
}

/// The value of a hexadecimal digit, in either case.
pub open spec fn hex_value(c: char) -> Option<nat> {
    if c == 'a' || c == 'A' {
        Some(10)
    } else if c == 'b' || c == 'B' {
        Some(11)
    } else if c == 'c' || c == 'C' {
        Some(12)
    } else if c == 'd' || c == 'D' {
        Some(13)
    } else if c == 'e' || c == 'E' {
        Some(14)
    } else if c == 'f' || c == 'F' {
        Some(15)
    } else {
        crate::text::digit_value(c)
    }
}

/// The lower-case hexadecimal digit of a value below 16.
pub open spec fn hex_char(d: nat) -> char {
    if d < 10 {
        crate::text::digit_char(d)
    } else if d == 10 {
        'a'
    } else if d == 11 {
        'b'
    } else if d == 12 {
        'c'
    } else if d == 13 {
        'd'
    } else if d == 14 {
        'e'
    } else {
        'f'
    }
}

fn hex_of(c: char) -> (r: Option<u8>)
    ensures
        r matches Some(d) ==> hex_value(c) == Some(d as nat) && d < 16,
        r.is_none() ==> hex_value(c).is_none(),
{
    if c == 'a' || c == 'A' {
        Some(10)
    } else if c == 'b' || c == 'B' {
        Some(11)
    } else if c == 'c' || c == 'C' {
        Some(12)
    } else if c == 'd' || c == 'D' {
        Some(13)
    } else if c == 'e' || c == 'E' {
        Some(14)
    } else if c == 'f' || c == 'F' {
        Some(15)
    } else if c == '0' {
        Some(0)
    } else if c == '1' {
        Some(1)
    } else if c == '2' {
        Some(2)
    } else if c == '3' {
        Some(3)
    } else if c == '4' {
        Some(4)
    } else if c == '5' {
        Some(5)
    } else if c == '6' {
        Some(6)
    } else if c == '7' {
        Some(7)
    } else if c == '8' {
        Some(8)
    } else if c == '9' {
        Some(9)
    } else {
        None
    }
}

fn hex_digit(d: u8) -> (c: char)
    requires
        d < 16,
    ensures
        c == hex_char(d as nat),
        hex_value(c) == Some(d as nat),
{
    if d == 0 {
        '0'
    } else if d == 1 {
        '1'
    } else if d == 2 {
        '2'
    } else if d == 3 {
        '3'
    } else if d == 4 {
        '4'
    } else if d == 5 {
        '5'
    } else if d == 6 {
        '6'
    } else if d == 7 {
        '7'
    } else if d == 8 {
        '8'
    } else if d == 9 {
        '9'
    } else if d == 10 {
        'a'
    } else if d == 11 {
        'b'
    } else if d == 12 {
        'c'
    } else if d == 13 {
        'd'
    } else if d == 14 {
        'e'
    } else {
        'f'
    }
}

/// Whether the text is `n` pairs of hexadecimal digits.
pub open spec fn is_hex(s: Seq<char>, n: nat) -> bool {
    &&& s.len() == 2 * n
    &&& forall|i: int| 0 <= i < s.len() ==> hex_value(#[trigger] s[i]) is Some
}

/// The bytes that pairs of hexadecimal digits spell, in their order.
pub open spec fn hex_bytes(s: Seq<char>, n: nat) -> Seq<u8> {
    Seq::new(n, |i: int| (hex_value(s[2 * i])->Some_0 * 16 + hex_value(s[2 * i + 1])->Some_0) as u8)
}

/// The text of bytes in lower-case hexadecimal digits, two for each byte.
pub open spec fn hex_text(bytes: Seq<u8>) -> Seq<char> {
    Seq::new(
        2 * bytes.len(),
        |i: int|
            if i % 2 == 0 {
                hex_char((bytes[i / 2] / 16) as nat)
            } else {
                hex_char((bytes[i / 2] % 16) as nat)
            },
    )
}

/// Reads `n` bytes from `2 * n` hexadecimal digits.
pub fn decode_hex(s: &[char], n: usize) -> (r: Option<Vec<u8>>)
    ensures
        is_hex(s@, n as nat) <==> r is Some,
        r matches Some(v) ==> v@ == hex_bytes(s@, n as nat),
{
    let len: usize = s.len();
    if n > usize::MAX / 2 || len != 2 * n {
        return None;
    }
    let mut out: Vec<u8> = Vec::new();
    let mut i: usize = 0;
    while i < n
        invariant
            s@.len() == 2 * n,
            2 * n <= usize::MAX,
            i <= n,
            out@.len() == i,
            forall|j: int| 0 <= j < 2 * i ==> hex_value(#[trigger] s@[j]) is Some,
            forall|j: int|
                0 <= j < i ==> out@[j] == (hex_value(s@[2 * j])->Some_0 * 16 + hex_value(
                    s@[2 * j + 1],
                )->Some_0) as u8,
        decreases n - i,
    {
        let hi = match hex_of(s[2 * i]) {
            Some(d) => d,
            None => {
                return None;
            },
        };
        let lo = match hex_of(s[2 * i + 1]) {
            Some(d) => d,
            None => {
                return None;
            },
        };
        out.push(hi * 16 + lo);
        i += 1;
    }
    assert(out@ =~= hex_bytes(s@, n as nat));
    Some(out)
}

/// The text of bytes in metadata: `0x` and two lower-case hexadecimal
/// digits for each byte.
pub fn encode_hex(bytes: &[u8]) -> (s: String)
    requires
        2 * bytes@.len() <= usize::MAX,
    ensures
        s@ == seq!['0', 'x'] + hex_text(bytes@),
{
    let mut out: Vec<char> = Vec::new();
    out.push('0');
    out.push('x');
    assert(out@ =~= seq!['0', 'x'] + hex_text(bytes@.take(0)));
    let mut i: usize = 0;
    while i < bytes.len()
        invariant
            i <= bytes@.len(),
            out@ == seq!['0', 'x'] + hex_text(bytes@.take(i as int)),
        decreases bytes@.len() - i,
    {
        let b: u8 = bytes[i];
        let ghost before = out@;
        out.push(hex_digit(b / 16));
        out.push(hex_digit(b % 16));
        proof {
            let t0 = hex_text(bytes@.take(i as int));
            let t1 = hex_text(bytes@.take(i as int + 1));
            assert(t1.len() == t0.len() + 2);
            assert forall|j: int| 0 <= j < t1.len() implies t1[j] == (t0 + seq![
                hex_char((b / 16) as nat),
                hex_char((b % 16) as nat),
            ])[j] by {
                if j < t0.len() {
                    assert(bytes@.take(i as int + 1)[j / 2] == bytes@.take(i as int)[j / 2]);
                } else {
                    assert(j / 2 == i);
                }
            }
            assert(t1 =~= t0 + seq![hex_char((b / 16) as nat), hex_char((b % 16) as nat)]);
            assert(out@ =~= seq!['0', 'x'] + t1);
        }
        i += 1;
    }
    assert(bytes@.take(bytes@.len() as int) =~= bytes@);
    string_from_chars(out.as_slice())
}

/// A 32-bit float as metadata writes it: the NaN of metadata, an
/// infinity, a number (held as its bits), or the four bytes of another
/// NaN.
#[derive(Clone, Copy, Debug, PartialEq, Eq)]
pub enum SpecialF32 {
    NaN,
    Infinity,
    NegInfinity,
    Value(u32),
    Bytes([u8; 4]),
}

/// Whether the bits are those of a NaN: every bit of the exponent is 1 and
/// the mantissa is not zero.
pub open spec fn is_nan32(bits: u32) -> bool {
    (bits & 0x7f80_0000u32) == 0x7f80_0000u32 && (bits & 0x007f_ffffu32) != 0
}

/// Whether the bits are those of a 64-bit NaN.
pub open spec fn is_nan64(bits: u64) -> bool {
    (bits & 0x7ff0_0000_0000_0000u64) == 0x7ff0_0000_0000_0000u64 && (bits
        & 0x000f_ffff_ffff_ffffu64) != 0
}

/// The number whose four bytes, highest first, are `b`.
pub open spec fn from_be_bytes32(b: Seq<u8>) -> u32 {
    ((b[0] as u32) << 24) | ((b[1] as u32) << 16) | ((b[2] as u32) << 8) | (b[3] as u32)
}

/// The number whose eight bytes, highest first, are `b`.
pub open spec fn from_be_bytes64(b: Seq<u8>) -> u64 {
    ((b[0] as u64) << 56) | ((b[1] as u64) << 48) | ((b[2] as u64) << 40) | ((b[3] as u64)
        << 32) | ((b[4] as u64) << 24) | ((b[5] as u64) << 16) | ((b[6] as u64) << 8) | (
    b[7] as u64)
}

fn u32_from_be(b: &[u8]) -> (x: u32)
    requires
        b@.len() == 4,
    ensures
        x == from_be_bytes32(b@),
{
    ((b[0] as u32) << 24) | ((b[1] as u32) << 16) | ((b[2] as u32) << 8) | (b[3] as u32)
}

fn u64_from_be(b: &[u8]) -> (x: u64)
    requires
        b@.len() == 8,
    ensures
        x == from_be_bytes64(b@),
{
    ((b[0] as u64) << 56) | ((b[1] as u64) << 48) | ((b[2] as u64) << 40) | ((b[3] as u64)
        << 32) | ((b[4] as u64) << 24) | ((b[5] as u64) << 16) | ((b[6] as u64) << 8) | (
    b[7] as u64)
}

/// The bits that a text of metadata stands for as a 32-bit float: `NaN`,
/// `Infinity`, `-Infinity`, or `0x` and eight hexadecimal digits.
pub open spec fn spec_special32(s: Seq<char>) -> Option<u32> {
    if s == seq!['N', 'a', 'N'] {
        Some(NAN32_BITS)
    } else if s == seq!['I', 'n', 'f', 'i', 'n', 'i', 't', 'y'] {
        Some(INF32_BITS)
    } else if s == seq!['-', 'I', 'n', 'f', 'i', 'n', 'i', 't', 'y'] {
        Some(NEG_INF32_BITS)
    } else if s.len() == 10 && s[0] == '0' && s[1] == 'x' && is_hex(s.skip(2), 4) {
        Some(from_be_bytes32(hex_bytes(s.skip(2), 4)))
    } else {
        None
    }
}

/// The bits that a text of metadata stands for as a 64-bit float: `NaN`,
/// `Infinity`, `-Infinity`, or `0x` and sixteen hexadecimal digits.
pub open spec fn spec_special64(s: Seq<char>) -> Option<u64> {
    if s == seq!['N', 'a', 'N'] {
        Some(NAN64_BITS)
    } else if s == seq!['I', 'n', 'f', 'i', 'n', 'i', 't', 'y'] {
        Some(INF64_BITS)
    } else if s == seq!['-', 'I', 'n', 'f', 'i', 'n', 'i', 't', 'y'] {
        Some(NEG_INF64_BITS)
    } else if s.len() == 18 && s[0] == '0' && s[1] == 'x' && is_hex(s.skip(2), 8) {
        Some(from_be_bytes64(hex_bytes(s.skip(2), 8)))
    } else {
        None
    }
}

/// Which of the special texts a text is: 0 for `NaN`, 1 for `Infinity`, 2
/// for `-Infinity`, 3 for anything else.
fn special_word(s: &[char]) -> (w: u8)
    ensures
        w == 0 <==> s@ == seq!['N', 'a', 'N'],
        w == 1 <==> s@ == seq!['I', 'n', 'f', 'i', 'n', 'i', 't', 'y'],
        w == 2 <==> s@ == seq!['-', 'I', 'n', 'f', 'i', 'n', 'i', 't', 'y'],
        w <= 3,
{
    let nan: Vec<char> = vec!['N', 'a', 'N'];
    let inf: Vec<char> = vec!['I', 'n', 'f', 'i', 'n', 'i', 't', 'y'];
    let ninf: Vec<char> = vec!['-', 'I', 'n', 'f', 'i', 'n', 'i', 't', 'y'];
    assert(nan@ =~= seq!['N', 'a', 'N']);
    assert(inf@ =~= seq!['I', 'n', 'f', 'i', 'n', 'i', 't', 'y']);
    assert(ninf@ =~= seq!['-', 'I', 'n', 'f', 'i', 'n', 'i', 't', 'y']);
    if chars_equal(s, nan.as_slice()) {
        0
    } else if chars_equal(s, inf.as_slice()) {
        1
    } else if chars_equal(s, ninf.as_slice()) {
        assert(ninf@.len() == 9);
        2
    } else {
        3
    }
}

/// The bits that a text of metadata stands for as a 32-bit float.
pub fn parse_special32(s: &[char]) -> (r: Option<u32>)
    ensures
        r == spec_special32(s@),
{
    let w = special_word(s);
    if w == 0 {
        Some(NAN32_BITS)
    } else if w == 1 {
        Some(INF32_BITS)
    } else if w == 2 {
        Some(NEG_INF32_BITS)
    } else if s.len() == 10 && s[0] == '0' && s[1] == 'x' {
        let digits = vstd::slice::slice_subrange(s, 2, 10);
        assert(digits@ =~= s@.skip(2));
        match decode_hex(digits, 4) {
            Some(b) => Some(u32_from_be(b.as_slice())),
            None => None,
        }
    } else {
        None
    }
}

/// The bits that a text of metadata stands for as a 64-bit float.
pub fn parse_special64(s: &[char]) -> (r: Option<u64>)
    ensures
        r == spec_special64(s@),
{
    let w = special_word(s);
    if w == 0 {
        Some(NAN64_BITS)
    } else if w == 1 {
        Some(INF64_BITS)
    } else if w == 2 {
        Some(NEG_INF64_BITS)
    } else if s.len() == 18 && s[0] == '0' && s[1] == 'x' {
        let digits = vstd::slice::slice_subrange(s, 2, 18);
        assert(digits@ =~= s@.skip(2));
        match decode_hex(digits, 8) {
            Some(b) => Some(u64_from_be(b.as_slice())),
            None => None,
        }
    } else {
        None
    }
}

/// A hexadecimal digit reads as the number it was written for.
pub proof fn lemma_hex_char(d: nat)
    requires
        d < 16,
    ensures
        hex_value(hex_char(d)) == Some(d),
{
}

/// Bytes written in hexadecimal digits read back as they were.
pub proof fn lemma_hex_roundtrip(bytes: Seq<u8>)
    ensures
        is_hex(hex_text(bytes), bytes.len()),
        hex_bytes(hex_text(bytes), bytes.len()) == bytes,
{
    let t = hex_text(bytes);
    assert forall|i: int| 0 <= i < t.len() implies hex_value(#[trigger] t[i]) is Some by {
        let b = bytes[i / 2];
        lemma_hex_char((b / 16) as nat);
        lemma_hex_char((b % 16) as nat);
    }
    assert forall|i: int| 0 <= i < bytes.len() implies hex_bytes(t, bytes.len())[i]
        == bytes[i] by {
        let b = bytes[i];
        lemma_hex_char((b / 16) as nat);
        lemma_hex_char((b % 16) as nat);
        assert((2 * i) / 2 == i && (2 * i) % 2 == 0);
        assert((2 * i + 1) / 2 == i && (2 * i + 1) % 2 == 1);
        assert(t[2 * i] == hex_char((b / 16) as nat));
        assert(t[2 * i + 1] == hex_char((b % 16) as nat));
    }
    assert(hex_bytes(t, bytes.len()) =~= bytes);
}

impl SpecialF32 {
    /// The text by which metadata writes the float; a number is written
    /// as a number and has no text.
    pub open spec fn spec_text(self) -> Option<Seq<char>> {
        match self {
            SpecialF32::NaN => Some("NaN"@),
            SpecialF32::Infinity => Some("Infinity"@),
            SpecialF32::NegInfinity => Some("-Infinity"@),
            SpecialF32::Value(_) => None,
            SpecialF32::Bytes(b) => Some(seq!['0', 'x'] + hex_text(b@)),
        }
    }

    /// The text by which metadata writes the float; a number is written
    /// as a number and has no text.
    pub fn to_text(&self) -> (r: Option<String>)
        ensures
            r is Some <==> self.spec_text() is Some,
            r matches Some(s) ==> self.spec_text() == Some(s@),
    {
        match self {
            SpecialF32::NaN => Some(crate::text::string_from_chars(chars_of("NaN").as_slice())),
            SpecialF32::Infinity => Some(
                crate::text::string_from_chars(chars_of("Infinity").as_slice()),
            ),
            SpecialF32::NegInfinity => Some(
                crate::text::string_from_chars(chars_of("-Infinity").as_slice()),
            ),
            SpecialF32::Value(_) => None,
            SpecialF32::Bytes(b) => Some(encode_hex(b.as_slice())),
        }
    }

    /// The text of a float reads back as the float.
    pub proof fn lemma_text_roundtrip(self)
        requires
            self.spec_text() is Some,
        ensures
            spec_special32(self.spec_text()->Some_0) == Some(self.spec_bits()),
    {
        reveal_strlit("NaN");
        reveal_strlit("Infinity");
        reveal_strlit("-Infinity");
        match self {
            SpecialF32::NaN => {
                assert("NaN"@ =~= seq!['N', 'a', 'N']);
            },
            SpecialF32::Infinity => {
                assert("Infinity"@ =~= seq!['I', 'n', 'f', 'i', 'n', 'i', 't', 'y']);
                assert("Infinity"@.len() != 3);
            },
            SpecialF32::NegInfinity => {
                assert("-Infinity"@ =~= seq!['-', 'I', 'n', 'f', 'i', 'n', 'i', 't', 'y']);
                assert("-Infinity"@.len() != 3 && "-Infinity"@.len() != 8);
            },
            SpecialF32::Value(_) => {},
            SpecialF32::Bytes(b) => {
                let s = seq!['0', 'x'] + hex_text(b@);
                lemma_hex_roundtrip(b@);
                assert(b@.len() == 4);
                assert(s.skip(2) =~= hex_text(b@));
                assert(s.len() == 10);
                assert(s[0] == '0' && s[1] == 'x');
                assert(seq!['N', 'a', 'N'].len() == 3);
                assert(seq!['I', 'n', 'f', 'i', 'n', 'i', 't', 'y'].len() == 8);
                assert(seq!['-', 'I', 'n', 'f', 'i', 'n', 'i', 't', 'y'].len() == 9);
            },
        }
    }

    /// The bits of the float.
    pub open spec fn spec_bits(self) -> u32 {
        match self {
            SpecialF32::NaN => NAN32_BITS,
            SpecialF32::Infinity => INF32_BITS,
            SpecialF32::NegInfinity => NEG_INF32_BITS,
            SpecialF32::Value(b) => b,
            SpecialF32::Bytes(b) => from_be_bytes32(b@),
        }
    }

    /// How metadata writes the float with the given bits: a NaN other
    /// than the NaN of metadata is written by its bytes.
    pub open spec fn spec_from_bits(bits: u32) -> SpecialF32 {
        if is_nan32(bits) {
            if bits == NAN32_BITS {
                SpecialF32::NaN
            } else {
                SpecialF32::Bytes(
                    [
                        ((bits >> 24) & 0xff) as u8,
                        ((bits >> 16) & 0xff) as u8,
                        ((bits >> 8) & 0xff) as u8,
                        (bits & 0xff) as u8,
                    ],
                )
            }
        } else if bits == INF32_BITS {
            SpecialF32::Infinity
        } else if bits == NEG_INF32_BITS {
            SpecialF32::NegInfinity
        } else {
            SpecialF32::Value(bits)
        }
    }

    /// The float that a text of metadata stands for.
    pub fn from_str(s: &str) -> (r: Option<SpecialF32>)
        ensures
            r matches Some(v) ==> spec_special32(s@) == Some(v.spec_bits()),
            r.is_none() ==> spec_special32(s@).is_none(),
    {
        let c = chars_of(s);
        let w = special_word(c.as_slice());
        if w == 0 {
            Some(SpecialF32::NaN)
        } else if w == 1 {
            Some(SpecialF32::Infinity)
        } else if w == 2 {
            Some(SpecialF32::NegInfinity)
        } else {
            match parse_special32(c.as_slice()) {
                Some(b) => Some(SpecialF32::Value(b)),
                None => None,
            }
        }
    }

    /// The bits of the float.
    pub fn to_bits(&self) -> (b: u32)
        ensures
            b == self.spec_bits(),
    {
        match self {
            SpecialF32::NaN => NAN32_BITS,
            SpecialF32::Infinity => INF32_BITS,
            SpecialF32::NegInfinity => NEG_INF32_BITS,
            SpecialF32::Value(b) => *b,
            SpecialF32::Bytes(b) => u32_from_be(b.as_slice()),
        }
    }

    /// How metadata writes the float with the given bits.
    pub fn from_bits(bits: u32) -> (r: SpecialF32)
        ensures
            r == Self::spec_from_bits(bits),
    {
        if (bits & 0x7f80_0000u32) == 0x7f80_0000u32 && (bits & 0x007f_ffffu32) != 0 {
            if bits == NAN32_BITS {
                SpecialF32::NaN
            } else {
                SpecialF32::Bytes(
                    [
                        ((bits >> 24) & 0xff) as u8,
                        ((bits >> 16) & 0xff) as u8,
                        ((bits >> 8) & 0xff) as u8,
                        (bits & 0xff) as u8,
                    ],
                )
            }
        } else if bits == INF32_BITS {
            SpecialF32::Infinity
        } else if bits == NEG_INF32_BITS {
            SpecialF32::NegInfinity
        } else {
            SpecialF32::Value(bits)
        }
    }
}

} // verus!
