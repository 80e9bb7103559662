pub mod float;

use crate::codecs::ab::bytes_codec::Endian;
use crate::json::JsonNumber;
use crate::json::JsonValue;
use crate::text::decimal;
use crate::text::digit_value;
use crate::text::parse_decimal;
use vstd::prelude::*;

verus! {

/// Width of an integer type.
#[allow(non_camel_case_types)]
#[derive(Clone, Copy, Debug, PartialEq, Eq, Structural)]
pub enum IntSize {
    b8,
    b16,
    b32,
    b64,
}

/// Width of a floating-point type.
#[allow(non_camel_case_types)]
#[derive(Clone, Copy, Debug, PartialEq, Eq, Structural)]
pub enum FloatSize {
    b32,
    b64,
}

/// Width of a complex type: both of its parts together.
#[allow(non_camel_case_types)]
#[derive(Clone, Copy, Debug, PartialEq, Eq, Structural)]
pub enum ComplexSize {
    b64,
    b128,
}

/// Why a byte order cannot be settled for a data type.
#[derive(Clone, Copy, Debug, PartialEq, Eq, Structural)]
pub enum EndianError {
    /// The type has more than one byte per number and no byte order was
    /// given.
    Undefined,
}

/// What has a fixed size in bytes.
pub trait NBytes {
    spec fn spec_nbytes(&self) -> nat;

    /// Whether values of the type need a byte order.
    spec fn spec_has_endianness(&self) -> bool;

    /// Number of bytes of a value.
    fn nbytes(&self) -> (n: usize)
        ensures
            n == self.spec_nbytes(),
    ;

    /// Number of bits of a value.
    fn nbits(&self) -> (n: usize)
        requires
            self.spec_nbytes() * 8 <= usize::MAX,
        ensures
            n == self.spec_nbytes() * 8,
    ;

    fn has_endianness(&self) -> (b: bool)
        ensures
            b == self.spec_has_endianness(),
    ;

    /// The byte order to use for the type: the given one, or, where the
    /// type needs none, the default; an error where the type needs one and
    /// none is given.
    fn valid_endian(&self, endian: Option<Endian>) -> (r: Result<Endian, EndianError>)
        ensures
            r == spec_valid_endian(self.spec_has_endianness(), endian),
    ;
}

pub open spec fn spec_valid_endian(needs: bool, endian: Option<Endian>) -> Result<
    Endian,
    EndianError,
> {
    match endian {
        Some(e) => Ok(e),
        None => if needs {
            Err(EndianError::Undefined)
        } else {
            Ok(Endian::Little)
        },
    }
}

fn pick_endian(needs: bool, endian: Option<Endian>) -> (r: Result<Endian, EndianError>)
    ensures
        r == spec_valid_endian(needs, endian),
{
    match endian {
        Some(e) => Ok(e),
        None => {
            if needs {
                Err(EndianError::Undefined)
            } else {
                Ok(Endian::Little)
            }
        },
    }
}

impl IntSize {
    /// The width of that many bits, if there is one.
    pub fn try_from_bits(value: usize) -> (r: Option<IntSize>)
        ensures
            r == Self::spec_from_bits(value as nat),
    {
        if value == 8 {
            Some(IntSize::b8)
        } else if value == 16 {
            Some(IntSize::b16)
        } else if value == 32 {
            Some(IntSize::b32)
        } else if value == 64 {
            Some(IntSize::b64)
        } else {
            None
        }
    }

    pub open spec fn spec_from_bits(value: nat) -> Option<IntSize> {
        if value == 8 {
            Some(IntSize::b8)
        } else if value == 16 {
            Some(IntSize::b16)
        } else if value == 32 {
            Some(IntSize::b32)
        } else if value == 64 {
            Some(IntSize::b64)
        } else {
            None
        }
    }
}

impl NBytes for IntSize {
    open spec fn spec_nbytes(&self) -> nat {
        match self {
            IntSize::b8 => 1,
            IntSize::b16 => 2,
            IntSize::b32 => 4,
            IntSize::b64 => 8,
        }
    }

    open spec fn spec_has_endianness(&self) -> bool {
        self.spec_nbytes() > 1
    }

    fn nbytes(&self) -> (n: usize) {
        match self {
            IntSize::b8 => 1,
            IntSize::b16 => 2,
            IntSize::b32 => 4,
            IntSize::b64 => 8,
        }
    }

    fn nbits(&self) -> (n: usize) {
        self.nbytes() * 8
    }

    fn has_endianness(&self) -> (b: bool) {
        self.nbytes() > 1
    }

    fn valid_endian(&self, endian: Option<Endian>) -> (r: Result<Endian, EndianError>) {
        pick_endian(self.has_endianness(), endian)
    }
}

impl FloatSize {
    pub fn try_from_bits(value: usize) -> (r: Option<FloatSize>)
        ensures
            r == Self::spec_from_bits(value as nat),
    {
        if value == 32 {
            Some(FloatSize::b32)
        } else if value == 64 {
            Some(FloatSize::b64)
        } else {
            None
        }
    }

    pub open spec fn spec_from_bits(value: nat) -> Option<FloatSize> {
        if value == 32 {
            Some(FloatSize::b32)
        } else if value == 64 {
            Some(FloatSize::b64)
        } else {
            None
        }
    }
}

impl NBytes for FloatSize {
    open spec fn spec_nbytes(&self) -> nat {
        match self {
            FloatSize::b32 => 4,
            FloatSize::b64 => 8,
        }
    }

    open spec fn spec_has_endianness(&self) -> bool {
        true
    }

    fn nbytes(&self) -> (n: usize) {
        match self {
            FloatSize::b32 => 4,
            FloatSize::b64 => 8,
        }
    }

    fn nbits(&self) -> (n: usize) {
        self.nbytes() * 8
    }

    fn has_endianness(&self) -> (b: bool) {
        true
    }

    fn valid_endian(&self, endian: Option<Endian>) -> (r: Result<Endian, EndianError>) {
        pick_endian(true, endian)
    }
}

impl ComplexSize {
    pub fn try_from_bits(value: usize) -> (r: Option<ComplexSize>)
        ensures
            r == Self::spec_from_bits(value as nat),
    {
        if value == 64 {
            Some(ComplexSize::b64)
        } else if value == 128 {
            Some(ComplexSize::b128)
        } else {
            None
        }
    }

    pub open spec fn spec_from_bits(value: nat) -> Option<ComplexSize> {
        if value == 64 {
            Some(ComplexSize::b64)
        } else if value == 128 {
            Some(ComplexSize::b128)
        } else {
            None
        }
    }
}

impl NBytes for ComplexSize {
    open spec fn spec_nbytes(&self) -> nat {
        match self {
            ComplexSize::b64 => 8,
            ComplexSize::b128 => 16,
        }
    }

    open spec fn spec_has_endianness(&self) -> bool {
        true
    }

    fn nbytes(&self) -> (n: usize) {
        match self {
            ComplexSize::b64 => 8,
            ComplexSize::b128 => 16,
        }
    }

    fn nbits(&self) -> (n: usize) {
        self.nbytes() * 8
    }

    fn has_endianness(&self) -> (b: bool) {
        true
    }

    fn valid_endian(&self, endian: Option<Endian>) -> (r: Result<Endian, EndianError>) {
        pick_endian(true, endian)
    }
}

/// The element types of an array. A raw type carries its width in bits.
#[derive(Clone, Copy, Debug, PartialEq, Eq, Structural)]
pub enum DataType {
    Bool,
    Int(IntSize),
    UInt(IntSize),
    Float(FloatSize),
    Complex(ComplexSize),
    Raw(usize),
}

impl DataType {
    /// Number of bytes of each separately ordered number of a value: a
    /// complex value holds two of them, a raw value is not a number.
    pub open spec fn spec_word_bytes(&self) -> nat {
        match self {
            DataType::Complex(s) => s.spec_nbytes() / 2,
            DataType::Raw(_) => 1,
            _ => self.spec_nbytes(),
        }
    }

    pub fn word_bytes(&self) -> (n: usize)
        ensures
            n == self.spec_word_bytes(),
    {
        match self {
            DataType::Complex(s) => s.nbytes() / 2,
            DataType::Raw(_) => 1,
            _ => self.nbytes(),
        }
    }
}

impl NBytes for DataType {
    open spec fn spec_nbytes(&self) -> nat {
        match self {
            DataType::Bool => 1,
            DataType::Int(s) => s.spec_nbytes(),
            DataType::UInt(s) => s.spec_nbytes(),
            DataType::Float(s) => s.spec_nbytes(),
            DataType::Complex(s) => s.spec_nbytes(),
            DataType::Raw(s) => (*s as nat) / 8,
        }
    }

    open spec fn spec_has_endianness(&self) -> bool {
        match self {
            DataType::Raw(_) => false,
            _ => self.spec_nbytes() > 1,
        }
    }

    fn nbytes(&self) -> (n: usize) {
        match self {
            DataType::Bool => 1,
            DataType::Int(s) => s.nbytes(),
            DataType::UInt(s) => s.nbytes(),
            DataType::Float(s) => s.nbytes(),
            DataType::Complex(s) => s.nbytes(),
            DataType::Raw(s) => *s / 8,
        }
    }

    fn nbits(&self) -> (n: usize) {
        self.nbytes() * 8
    }

    fn has_endianness(&self) -> (b: bool) {
        match self {
            DataType::Raw(_) => false,
            _ => self.nbytes() > 1,
        }
    }

    fn valid_endian(&self, endian: Option<Endian>) -> (r: Result<Endian, EndianError>) {
        pick_endian(self.has_endianness(), endian)
    }
}

/// Why a text names no data type.
#[derive(Clone, Copy, Debug, PartialEq, Eq, Structural)]
pub enum DataTypeParseError {
    /// The text holds no number and is not `bool`.
    CouldNotParse,
    /// What follows the first digit is no number that can be counted.
    BadNumber,
    /// There is no type of this kind with so many bits.
    InvalidSize,
    /// The width of a raw type is no multiple of 8.
    RawNotMultipleOf8,
    /// The text in front of the number names no kind of type.
    UnknownDataType,
}

/// Position of the first decimal digit of a text; its length where there
/// is none.
pub open spec fn first_digit(s: Seq<char>) -> nat
    decreases s.len(),
{
    if s.len() == 0 || digit_value(s[0]) is Some {
        0
    } else {
        1 + first_digit(s.drop_first())
    }
}

/// The first digit stands where a digit stands behind characters that are
/// none.
pub proof fn lemma_first_digit(s: Seq<char>, p: int)
    requires
        0 <= p <= s.len(),
        forall|j: int| 0 <= j < p ==> digit_value(#[trigger] s[j]).is_none(),
        p < s.len() ==> digit_value(s[p]) is Some,
    ensures
        first_digit(s) == p,
    decreases p,
{
    if p > 0 {
        let t = s.drop_first();
        assert(digit_value(s[0]).is_none());
        assert forall|j: int| 0 <= j < p - 1 implies digit_value(#[trigger] t[j]).is_none() by {
            assert(t[j] == s[j + 1]);
        }
        if p < s.len() {
            assert(t[p - 1] == s[p]);
        }
        lemma_first_digit(t, p - 1);
    }
}

pub open spec fn kind_bool() -> Seq<char> {
    seq!['b', 'o', 'o', 'l']
}

pub open spec fn kind_int() -> Seq<char> {
    seq!['i', 'n', 't']
}

pub open spec fn kind_uint() -> Seq<char> {
    seq!['u', 'i', 'n', 't']
}

pub open spec fn kind_float() -> Seq<char> {
    seq!['f', 'l', 'o', 'a', 't']
}

pub open spec fn kind_complex() -> Seq<char> {
    seq!['c', 'o', 'm', 'p', 'l', 'e', 'x']
}

pub open spec fn kind_raw() -> Seq<char> {
    seq!['r']
}

/// The data type that a kind and a number of bits name.
pub open spec fn spec_type_of(kind: Seq<char>, n: nat) -> Result<DataType, DataTypeParseError> {
    if kind == kind_int() {
        match IntSize::spec_from_bits(n) {
            Some(s) => Ok(DataType::Int(s)),
            None => Err(DataTypeParseError::InvalidSize),
        }
    } else if kind == kind_uint() {
        match IntSize::spec_from_bits(n) {
            Some(s) => Ok(DataType::UInt(s)),
            None => Err(DataTypeParseError::InvalidSize),
        }
    } else if kind == kind_float() {
        match FloatSize::spec_from_bits(n) {
            Some(s) => Ok(DataType::Float(s)),
            None => Err(DataTypeParseError::InvalidSize),
        }
    } else if kind == kind_complex() {
        match ComplexSize::spec_from_bits(n) {
            Some(s) => Ok(DataType::Complex(s)),
            None => Err(DataTypeParseError::InvalidSize),
        }
    } else if kind == kind_raw() {
        if n % 8 == 0 {
            Ok(DataType::Raw(n as usize))
        } else {
            Err(DataTypeParseError::RawNotMultipleOf8)
        }
    } else {
        Err(DataTypeParseError::UnknownDataType)
    }
}

/// The data type that a text names: `bool`, or a kind followed by a number
/// of bits.
pub open spec fn spec_parse_type(s: Seq<char>) -> Result<DataType, DataTypeParseError> {
    let p = first_digit(s) as int;
    if p >= s.len() {
        if s == kind_bool() {
            Ok(DataType::Bool)
        } else {
            Err(DataTypeParseError::CouldNotParse)
        }
    } else {
        match parse_decimal(s.skip(p)) {
            None => Err(DataTypeParseError::BadNumber),
            Some(n) => if n > usize::MAX {
                Err(DataTypeParseError::BadNumber)
            } else {
                spec_type_of(s.take(p), n)
            },
        }
    }
}

/// Least significant bytes of a number, lowest first.
pub open spec fn le_bytes(u: nat, n: nat) -> Seq<u8> {
    Seq::new(n, |i: int| ((u / pow256(i as nat)) % 256) as u8)
}

/// 256 to the power of `i`.
pub open spec fn pow256(i: nat) -> nat
    decreases i,
{
    if i == 0 {
        1
    } else {
        256 * pow256((i - 1) as nat)
    }
}

pub proof fn lemma_pow256_positive(i: nat)
    ensures
        pow256(i) > 0,
    decreases i,
{
    if i > 0 {
        lemma_pow256_positive((i - 1) as nat);
    }
}

/// Computes the `n` least significant bytes of a number, lowest first.
pub fn le_bytes_of(u: u64, n: usize) -> (out: Vec<u8>)
    ensures
        out@ == le_bytes(u as nat, n as nat),
{
    let mut out: Vec<u8> = Vec::new();
    let mut rest: u64 = u;
    let mut i: usize = 0;
    assert(pow256(0) == 1);
    while i < n
        invariant
            i <= n,
            out@.len() == i,
            rest == (u as nat) / pow256(i as nat),
            forall|j: int| 0 <= j < i ==> out@[j] == (((u as nat) / pow256(j as nat)) % 256) as u8,
        decreases n - i,
    {
        proof {
            lemma_pow256_positive(i as nat);
            vstd::arithmetic::div_mod::lemma_div_denominator(
                u as int,
                pow256(i as nat) as int,
                256,
            );
            assert(pow256((i + 1) as nat) == 256 * pow256(i as nat));
            assert(pow256(i as nat) * 256 == 256 * pow256(i as nat)) by (nonlinear_arith);
        }
        out.push((rest % 256) as u8);
        rest = rest / 256;
        i += 1;
    }
    assert(out@ =~= le_bytes(u as nat, n as nat));
    out
}

/// The number that stands for an integer in two's complement of 64 bits.
pub open spec fn twos64(x: int) -> nat {
    if x >= 0 {
        x as nat
    } else {
        (x + 0x1_0000_0000_0000_0000) as nat
    }
}

/// Whether an integer is a value of the integer type of the given size.
pub open spec fn int_in_range(x: int, size: IntSize, signed: bool) -> bool {
    if signed {
        match size {
            IntSize::b8 => -0x80 <= x < 0x80,
            IntSize::b16 => -0x8000 <= x < 0x8000,
            IntSize::b32 => -0x8000_0000 <= x < 0x8000_0000,
            IntSize::b64 => -0x8000_0000_0000_0000 <= x < 0x8000_0000_0000_0000,
        }
    } else {
        match size {
            IntSize::b8 => 0 <= x < 0x100,
            IntSize::b16 => 0 <= x < 0x1_0000,
            IntSize::b32 => 0 <= x < 0x1_0000_0000,
            IntSize::b64 => 0 <= x < 0x1_0000_0000_0000_0000,
        }
    }
}

/// The bits of the 32-bit float that a JSON value stands for: a number,
/// or one of the texts for values that are no numbers.
pub open spec fn float32_bits(v: JsonValue) -> Option<u32> {
    match v {
        JsonValue::Number(n) => Some(n.f32_bits),
        JsonValue::String(s) => crate::data_type::float::spec_special32(s@),
        _ => None,
    }
}

/// The bits of the 64-bit float that a JSON value stands for.
pub open spec fn float64_bits(v: JsonValue) -> Option<u64> {
    match v {
        JsonValue::Number(n) => Some(n.f64_bits),
        JsonValue::String(s) => crate::data_type::float::spec_special64(s@),
        _ => None,
    }
}

/// The byte that a JSON value stands for: an integer from 0 to 255.
pub open spec fn byte_value(v: JsonValue) -> Option<u8> {
    match v {
        JsonValue::Number(n) => match n.int_value() {
            Some(x) => if 0 <= x < 256 {
                Some(x as u8)
            } else {
                None
            },
            None => None,
        },
        _ => None,
    }
}

/// The bytes of the element that a JSON value stands for as a fill value
/// of the data type, lowest byte first; none where the value is no value
/// of the type. A boolean is a JSON boolean; an integer is a JSON integer
/// within the range of the type; a float is a JSON number or a text for
/// what is no number; a complex number is a list of two floats; a raw
/// value is a list of its bytes.
pub open spec fn spec_fill_bytes(data_type: DataType, v: JsonValue) -> Option<Seq<u8>> {
    match data_type {
        DataType::Bool => match v {
            JsonValue::Bool(b) => Some(
                seq![if b {
                    1u8
                } else {
                    0u8
                }],
            ),
            _ => None,
        },
        DataType::Int(size) => match v {
            JsonValue::Number(n) => match n.int_value() {
                Some(x) => if int_in_range(x, size, true) {
                    Some(le_bytes(twos64(x), size.spec_nbytes()))
                } else {
                    None
                },
                None => None,
            },
            _ => None,
        },
        DataType::UInt(size) => match v {
            JsonValue::Number(n) => match n.int_value() {
                Some(x) => if int_in_range(x, size, false) {
                    Some(le_bytes(x as nat, size.spec_nbytes()))
                } else {
                    None
                },
                None => None,
            },
            _ => None,
        },
        DataType::Float(FloatSize::b32) => match float32_bits(v) {
            Some(b) => Some(le_bytes(b as nat, 4)),
            None => None,
        },
        DataType::Float(FloatSize::b64) => match float64_bits(v) {
            Some(b) => Some(le_bytes(b as nat, 8)),
            None => None,
        },
        DataType::Complex(ComplexSize::b64) => match v {
            JsonValue::Array(a) => if a@.len() == 2 {
                match (float32_bits(a@[0]), float32_bits(a@[1])) {
                    (Some(re), Some(im)) => Some(le_bytes(re as nat, 4) + le_bytes(im as nat, 4)),
                    _ => None,
                }
            } else {
                None
            },
            _ => None,
        },
        DataType::Complex(ComplexSize::b128) => match v {
            JsonValue::Array(a) => if a@.len() == 2 {
                match (float64_bits(a@[0]), float64_bits(a@[1])) {
                    (Some(re), Some(im)) => Some(le_bytes(re as nat, 8) + le_bytes(im as nat, 8)),
                    _ => None,
                }
            } else {
                None
            },
            _ => None,
        },
        DataType::Raw(bits) => match v {
            JsonValue::Array(a) => if a@.len() == data_type.spec_nbytes() && (forall|i: int|
                0 <= i < a@.len() ==> byte_value(#[trigger] a@[i]) is Some) {
                Some(Seq::new(a@.len(), |i: int| byte_value(a@[i])->Some_0))
            } else {
                None
            },
            _ => None,
        },
    }
}

/// So many bytes of zero.
pub open spec fn zero_bytes(n: nat) -> Seq<u8> {
    Seq::new(n, |i: int| 0u8)
}

/// The number zero is written with bytes of zero.
pub proof fn lemma_le_bytes_zero(n: nat)
    ensures
        le_bytes(0, n) == zero_bytes(n),
{
    assert forall|i: int| 0 <= i < n implies le_bytes(0, n)[i] == 0u8 by {
        lemma_pow256_positive(i as nat);
        let p = pow256(i as nat) as int;
        assert(0int / p == 0) by (nonlinear_arith)
            requires
                p > 0,
        ;
    }
    assert(le_bytes(0, n) =~= zero_bytes(n));
}

/// The fill value is no value of the data type.
#[derive(Clone, Copy, Debug, PartialEq, Eq, Structural)]
pub struct InvalidFillValue {}

fn int_of(n: &JsonNumber) -> (r: Option<(bool, u64)>)
    ensures
        n.int_value().is_none() <==> r.is_none(),
        r matches Some((neg, m)) ==> n.int_value() == Some(
            if neg {
                -(m as int) - 1
            } else {
                m as int
            },
        ) && (neg ==> m < 0x8000_0000_0000_0000),
{
    match n.as_i64 {
        Some(x) => {
            if x >= 0 {
                Some((false, x as u64))
            } else {
                Some((true, (-(x + 1)) as u64))
            }
        },
        None => match n.as_u64 {
            Some(u) => Some((false, u)),
            None => None,
        },
    }
}

fn f32_bits_of(v: &JsonValue) -> (r: Option<u32>)
    ensures
        r == float32_bits(*v),
{
    match v {
        JsonValue::Number(n) => Some(n.f32_bits),
        JsonValue::String(s) => {
            let c = crate::text::chars_of(s.as_str());
            crate::data_type::float::parse_special32(c.as_slice())
        },
        _ => None,
    }
}

fn f64_bits_of(v: &JsonValue) -> (r: Option<u64>)
    ensures
        r == float64_bits(*v),
{
    match v {
        JsonValue::Number(n) => Some(n.f64_bits),
        JsonValue::String(s) => {
            let c = crate::text::chars_of(s.as_str());
            crate::data_type::float::parse_special64(c.as_slice())
        },
        _ => None,
    }
}

fn byte_of_value(v: &JsonValue) -> (r: Option<u8>)
    ensures
        r == byte_value(*v),
{
    match v {
        JsonValue::Number(n) => match int_of(n) {
            Some((neg, m)) => {
                if !neg && m < 256 {
                    Some(m as u8)
                } else {
                    None
                }
            },
            None => None,
        },
        _ => None,
    }
}

fn signed_limit(size: IntSize) -> (m: u64)
    ensures
        forall|x: int| x >= 0 ==> (int_in_range(x, size, true) <==> x < m),
        forall|x: int| x < 0 ==> (int_in_range(x, size, true) <==> -x - 1 < m),
        forall|x: int| int_in_range(x, size, false) <==> (0 <= x && x < 2 * m),
{
    match size {
        IntSize::b8 => 0x80,
        IntSize::b16 => 0x8000,
        IntSize::b32 => 0x8000_0000,
        IntSize::b64 => 0x8000_0000_0000_0000,
    }
}

impl DataType {
    /// The name of the type in metadata.
    pub open spec fn spec_name(self) -> Seq<char> {
        match self {
            DataType::Bool => kind_bool(),
            DataType::Int(_) => kind_int() + decimal(self.spec_nbytes() * 8),
            DataType::UInt(_) => kind_uint() + decimal(self.spec_nbytes() * 8),
            DataType::Float(_) => kind_float() + decimal(self.spec_nbytes() * 8),
            DataType::Complex(_) => kind_complex() + decimal(self.spec_nbytes() * 8),
            DataType::Raw(_) => kind_raw() + decimal(self.spec_nbytes() * 8),
        }
    }

    /// The name of the type in metadata: `bool`, or the kind of the type
    /// followed by its number of bits.
    pub fn name(&self) -> (s: String)
        ensures
            s@ == self.spec_name(),
    {
        let kind: Vec<char> = match self {
            DataType::Bool => {
                let v: Vec<char> = vec!['b', 'o', 'o', 'l'];
                assert(v@ =~= kind_bool());
                return crate::text::string_from_chars(v.as_slice());
            },
            DataType::Int(_) => vec!['i', 'n', 't'],
            DataType::UInt(_) => vec!['u', 'i', 'n', 't'],
            DataType::Float(_) => vec!['f', 'l', 'o', 'a', 't'],
            DataType::Complex(_) => vec!['c', 'o', 'm', 'p', 'l', 'e', 'x'],
            DataType::Raw(_) => vec!['r'],
        };
        let nbits: usize = self.nbytes() * 8;
        let digits = crate::text::decimal_chars(nbits as u64);
        let mut out = kind;
        let ghost head = out@;
        crate::text::append_chars(&mut out, digits.as_slice());
        assert(out@ =~= self.spec_name());
        crate::text::string_from_chars(out.as_slice())
    }

    /// The data type that a text names.
    pub fn from_str(s: &str) -> (r: Result<DataType, DataTypeParseError>)
        ensures
            r == spec_parse_type(s@),
    {
        let chars = crate::text::chars_of(s);
        let n = chars.len();
        let mut p: usize = 0;
        while p < n && !crate::text::is_digit(chars[p])
            invariant
                n == chars@.len(),
                p <= n,
                forall|j: int| 0 <= j < p ==> digit_value(#[trigger] chars@[j]).is_none(),
            decreases n - p,
        {
            p += 1;
        }
        proof {
            lemma_first_digit(chars@, p as int);
        }
        if p >= n {
            let b: Vec<char> = vec!['b', 'o', 'o', 'l'];
            assert(b@ =~= kind_bool());
            if crate::text::chars_equal(chars.as_slice(), b.as_slice()) {
                return Ok(DataType::Bool);
            } else {
                return Err(DataTypeParseError::CouldNotParse);
            }
        }
        let kind = vstd::slice::slice_subrange(chars.as_slice(), 0, p);
        let num = vstd::slice::slice_subrange(chars.as_slice(), p, n);
        assert(kind@ =~= chars@.take(p as int));
        assert(num@ =~= chars@.skip(p as int));
        let bits = match crate::text::parse_usize(num) {
            Some(b) => b,
            None => {
                return Err(DataTypeParseError::BadNumber);
            },
        };
        let k_int: Vec<char> = vec!['i', 'n', 't'];
        let k_uint: Vec<char> = vec!['u', 'i', 'n', 't'];
        let k_float: Vec<char> = vec!['f', 'l', 'o', 'a', 't'];
        let k_complex: Vec<char> = vec!['c', 'o', 'm', 'p', 'l', 'e', 'x'];
        let k_raw: Vec<char> = vec!['r'];
        assert(k_int@ =~= kind_int());
        assert(k_uint@ =~= kind_uint());
        assert(k_float@ =~= kind_float());
        assert(k_complex@ =~= kind_complex());
        assert(k_raw@ =~= kind_raw());
        if crate::text::chars_equal(kind, k_int.as_slice()) {
            match IntSize::try_from_bits(bits) {
                Some(s) => Ok(DataType::Int(s)),
                None => Err(DataTypeParseError::InvalidSize),
            }
        } else if crate::text::chars_equal(kind, k_uint.as_slice()) {
            match IntSize::try_from_bits(bits) {
                Some(s) => Ok(DataType::UInt(s)),
                None => Err(DataTypeParseError::InvalidSize),
            }
        } else if crate::text::chars_equal(kind, k_float.as_slice()) {
            match FloatSize::try_from_bits(bits) {
                Some(s) => Ok(DataType::Float(s)),
                None => Err(DataTypeParseError::InvalidSize),
            }
        } else if crate::text::chars_equal(kind, k_complex.as_slice()) {
            match ComplexSize::try_from_bits(bits) {
                Some(s) => Ok(DataType::Complex(s)),
                None => Err(DataTypeParseError::InvalidSize),
            }
        } else if crate::text::chars_equal(kind, k_raw.as_slice()) {
            if bits % 8 == 0 {
                Ok(DataType::Raw(bits))
            } else {
                Err(DataTypeParseError::RawNotMultipleOf8)
            }
        } else {
            Err(DataTypeParseError::UnknownDataType)
        }
    }

    /// The fill value of arrays that name none: false, zero, or bytes of
    /// zero. As an element it is all bytes of zero.
    pub fn default_fill_value(&self) -> (v: JsonValue)
        ensures
            spec_fill_bytes(*self, v) == Some(zero_bytes(self.spec_nbytes())),
    {
        proof {
            lemma_le_bytes_zero(1);
            lemma_le_bytes_zero(2);
            lemma_le_bytes_zero(4);
            lemma_le_bytes_zero(8);
            assert(zero_bytes(1) =~= seq![0u8]);
            assert(zero_bytes(4) + zero_bytes(4) =~= zero_bytes(8));
            assert(zero_bytes(8) + zero_bytes(8) =~= zero_bytes(16));
        }
        let v = self.default_value();
        proof {
            if let DataType::Raw(bits) = *self {
                let a = v->Array_0@;
                assert(Seq::new(a.len(), |i: int| byte_value(a[i])->Some_0) =~= zero_bytes(
                    self.spec_nbytes(),
                ));
            }
        }
        v
    }

    fn default_value(&self) -> (v: JsonValue)
        ensures
            match *self {
                DataType::Bool => v == JsonValue::Bool(false),
                DataType::Int(_) | DataType::UInt(_) | DataType::Float(_) => v matches JsonValue::Number(
                    n,
                ) && n.int_value() == Some(0int) && n.f32_bits == 0 && n.f64_bits == 0,
                DataType::Complex(_) => v matches JsonValue::Array(a) && a@.len() == 2 && (forall|
                    i: int,
                |
                    0 <= i < 2 ==> (#[trigger] a@[i] matches JsonValue::Number(n) && n.f32_bits == 0
                        && n.f64_bits == 0)),
                DataType::Raw(bits) => v matches JsonValue::Array(a) && a@.len() == bits / 8
                    && forall|i: int| 0 <= i < a@.len() ==> byte_value(#[trigger] a@[i]) == Some(0u8),
            },
    {
        match self {
            DataType::Bool => JsonValue::Bool(false),
            DataType::Int(_) => JsonValue::Number(JsonNumber::zero()),
            DataType::UInt(_) => JsonValue::Number(JsonNumber::zero()),
            DataType::Float(s) => {
                match s {
                    FloatSize::b32 => {},
                    FloatSize::b64 => {},
                }
                JsonValue::Number(JsonNumber::zero())
            },
            DataType::Complex(s) => {
                match s {
                    ComplexSize::b64 => {},
                    ComplexSize::b128 => {},
                }
                let mut a: Vec<JsonValue> = Vec::new();
                a.push(JsonValue::Number(JsonNumber::zero()));
                a.push(JsonValue::Number(JsonNumber::zero()));
                JsonValue::Array(a)
            },
            DataType::Raw(bits) => {
                let n: usize = *bits / 8;
                let mut a: Vec<JsonValue> = Vec::new();
                let mut i: usize = 0;
                while i < n
                    invariant
                        i <= n,
                        a@.len() == i,
                        forall|j: int| 0 <= j < i ==> byte_value(#[trigger] a@[j]) == Some(0u8),
                    decreases n - i,
                {
                    a.push(JsonValue::Number(JsonNumber::zero()));
                    i += 1;
                }
                JsonValue::Array(a)
            },
        }
    }

    /// The bytes of the element that a JSON value stands for as a fill
    /// value of this type, lowest byte first.
    pub fn fill_value_bytes(&self, value: &JsonValue) -> (r: Option<Vec<u8>>)
        ensures
            r matches Some(b) ==> spec_fill_bytes(*self, *value) == Some(b@) && b@.len()
                == self.spec_nbytes(),
            r.is_none() ==> spec_fill_bytes(*self, *value).is_none(),
    {
        match self {
            DataType::Bool => match value {
                JsonValue::Bool(b) => {
                    let v: Vec<u8> = vec![if *b {
                        1u8
                    } else {
                        0u8
                    }];
                    assert(v@ =~= seq![if *b {
                        1u8
                    } else {
                        0u8
                    }]);
                    Some(v)
                },
                _ => None,
            },
            DataType::Int(size) => match value {
                JsonValue::Number(n) => match int_of(n) {
                    Some((neg, m)) => {
                        let lim = signed_limit(*size);
                        if m < lim {
                            let u: u64 = if neg {
                                u64::MAX - m
                            } else {
                                m
                            };
                            Some(le_bytes_of(u, size.nbytes()))
                        } else {
                            None
                        }
                    },
                    None => None,
                },
                _ => None,
            },
            DataType::UInt(size) => match value {
                JsonValue::Number(n) => match int_of(n) {
                    Some((neg, m)) => {
                        let lim = signed_limit(*size);
                        if !neg && (m < lim || m - lim < lim) {
                            Some(le_bytes_of(m, size.nbytes()))
                        } else {
                            None
                        }
                    },
                    None => None,
                },
                _ => None,
            },
            DataType::Float(size) => match size {
                FloatSize::b32 => match f32_bits_of(value) {
                    Some(b) => Some(le_bytes_of(b as u64, 4)),
                    None => None,
                },
                FloatSize::b64 => match f64_bits_of(value) {
                    Some(b) => Some(le_bytes_of(b, 8)),
                    None => None,
                },
            },
            DataType::Complex(size) => match value {
                JsonValue::Array(a) => {
                    if a.len() != 2 {
                        return None;
                    }
                    match size {
                        ComplexSize::b64 => match (f32_bits_of(&a[0]), f32_bits_of(&a[1])) {
                            (Some(re), Some(im)) => {
                                let mut out = le_bytes_of(re as u64, 4);
                                let hi = le_bytes_of(im as u64, 4);
                                crate::codecs::fwrite::append_bytes(&mut out, hi.as_slice());
                                Some(out)
                            },
                            _ => None,
                        },
                        ComplexSize::b128 => match (f64_bits_of(&a[0]), f64_bits_of(&a[1])) {
                            (Some(re), Some(im)) => {
                                let mut out = le_bytes_of(re, 8);
                                let hi = le_bytes_of(im, 8);
                                crate::codecs::fwrite::append_bytes(&mut out, hi.as_slice());
                                Some(out)
                            },
                            _ => None,
                        },
                    }
                },
                _ => None,
            },
            DataType::Raw(bits) => match value {
                JsonValue::Array(a) => {
                    if a.len() != *bits / 8 {
                        return None;
                    }
                    let mut out: Vec<u8> = Vec::new();
                    let mut i: usize = 0;
                    while i < a.len()
                        invariant
                            i <= a@.len(),
                            out@.len() == i,
                            spec_fill_bytes(*self, *value) is Some ==> (forall|j: int|
                                0 <= j < a@.len() ==> byte_value(#[trigger] a@[j]) is Some),
                            forall|j: int| 0 <= j < i ==> byte_value(#[trigger] a@[j]) == Some(out@[j]),
                        decreases a@.len() - i,
                    {
                        match byte_of_value(&a[i]) {
                            Some(b) => {
                                out.push(b);
                            },
                            None => {
                                return None;
                            },
                        }
                        i += 1;
                    }
                    assert(out@ =~= Seq::new(a@.len(), |i: int| byte_value(a@[i])->Some_0));
                    Some(out)
                },
                _ => None,
            },
        }
    }

    /// Checks that a JSON value is a value of this type.
    pub fn validate_json_value(&self, value: &JsonValue) -> (r: Result<(), InvalidFillValue>)
        ensures
            r is Ok <==> spec_fill_bytes(*self, *value) is Some,
    {
        match self.fill_value_bytes(value) {
            Some(_) => Ok(()),
            None => Err(InvalidFillValue {  }),
        }
    }
}

/// The name of a type names the type, where a raw type has a whole number
/// of bytes.
pub proof fn lemma_name_roundtrip(data_type: DataType)
    requires
        data_type matches DataType::Raw(bits) ==> bits % 8 == 0,
    ensures
        spec_parse_type(data_type.spec_name()) == Ok::<DataType, DataTypeParseError>(data_type),
{
    let name = data_type.spec_name();
    match data_type {
        DataType::Bool => {
            let s = kind_bool();
            assert forall|j: int| 0 <= j < s.len() implies digit_value(#[trigger] s[j]).is_none() by {}
            lemma_first_digit(s, s.len() as int);
        },
        _ => {
            let kind = match data_type {
                DataType::Int(_) => kind_int(),
                DataType::UInt(_) => kind_uint(),
                DataType::Float(_) => kind_float(),
                DataType::Complex(_) => kind_complex(),
                _ => kind_raw(),
            };
            let n = data_type.spec_nbytes() * 8;
            crate::text::lemma_decimal_roundtrip(n);
            let d = decimal(n);
            assert(name == kind + d);
            assert forall|j: int| 0 <= j < kind.len() implies digit_value(
                #[trigger] name[j],
            ).is_none() by {
                assert(name[j] == kind[j]);
            }
            assert(name[kind.len() as int] == d[0]);
            lemma_first_digit(name, kind.len() as int);
            assert(name.skip(kind.len() as int) =~= d);
            assert(name.take(kind.len() as int) =~= kind);
            assert(kind_int() != kind_uint()) by {
                assert(kind_int().len() != kind_uint().len());
            }
            assert(kind_int().len() == 3 && kind_uint().len() == 4 && kind_float().len() == 5
                && kind_complex().len() == 7 && kind_raw().len() == 1);
        },
    }
}

/// A data type that this crate does not know: its name and what the
/// metadata says of its configuration.
#[derive(Debug)]
pub struct UnknownDataType {
    pub name: String,
    pub configuration: Option<JsonValue>,
}

/// A data type as metadata names it: one that this crate knows, or
/// another.
#[derive(Debug)]
pub enum ExtensibleDataType {
    Known(DataType),
    Unknown(UnknownDataType),
}

/// The key of the name of a data type in metadata.
pub open spec fn name_key() -> Seq<char> {
    "name"@
}

/// The key of the configuration of a data type in metadata.
pub open spec fn configuration_key() -> Seq<char> {
    "configuration"@
}

/// Whether the value of metadata names a data type that this crate does
/// not know: it is an object whose first member `name` is a text.
pub open spec fn names_unknown_type(v: JsonValue) -> bool {
    v matches JsonValue::Object(o) && crate::json::spec_find_key(o@, name_key()) < o@.len()
        && o@[crate::json::spec_find_key(o@, name_key())].1 is String
}

impl ExtensibleDataType {
    /// The data type that a value of metadata names: a text names a type
    /// that this crate knows; an object with a name names another type,
    /// with the configuration that the object holds, if it holds one.
    /// Anything else names no data type.
    pub fn from_json(v: JsonValue) -> (r: Option<ExtensibleDataType>)
        ensures
            v matches JsonValue::String(s) ==> match spec_parse_type(s@) {
                Ok(d) => (r matches Some(ExtensibleDataType::Known(k)) && k == d),
                Err(_) => r.is_none(),
            },
            names_unknown_type(v) ==> (r matches Some(ExtensibleDataType::Unknown(u)) && {
                let o = v->Object_0@;
                let at = crate::json::spec_find_key(o, name_key());
                let rest = o.remove(at);
                let c = crate::json::spec_find_key(rest, configuration_key());
                &&& JsonValue::String(u.name) == o[at].1
                &&& u.configuration == if c < rest.len() {
                    Some(rest[c].1)
                } else {
                    None
                }
            }),
            !(v is String) && !names_unknown_type(v) ==> r.is_none(),
    {
        proof {
            reveal_strlit("name");
            reveal_strlit("configuration");
        }
        match v {
            JsonValue::String(s) => match DataType::from_str(s.as_str()) {
                Ok(d) => Some(ExtensibleDataType::Known(d)),
                Err(_) => None,
            },
            JsonValue::Object(o) => {
                let mut o = o;
                proof {
                    crate::json::lemma_find_key(o@, name_key());
                }
                let name = match crate::json::remove_value(&mut o, "name") {
                    Some(JsonValue::String(n)) => n,
                    _ => {
                        return None;
                    },
                };
                proof {
                    crate::json::lemma_find_key(o@, configuration_key());
                }
                let configuration = crate::json::remove_value(&mut o, "configuration");
                Some(ExtensibleDataType::Unknown(UnknownDataType { name, configuration }))
            },
            _ => None,
        }
    }

    /// The data type, where this crate knows it.
    pub fn try_into_known(self) -> (r: Result<DataType, UnknownDataType>)
        ensures
            r == match self {
                ExtensibleDataType::Known(d) => Ok::<DataType, UnknownDataType>(d),
                ExtensibleDataType::Unknown(u) => Err::<DataType, UnknownDataType>(u),
            },
    {
        match self {
            ExtensibleDataType::Known(d) => Ok(d),
            ExtensibleDataType::Unknown(u) => Err(u),
        }
    }
}

} // verus!
